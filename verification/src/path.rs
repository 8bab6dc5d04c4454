//! Slash-separated paths: their components, how they are written, and sets of them.
//!
//! A caller on a system with other separators hands over the components of its paths: see
//! `NodePath::from_components`.

use vstd::hash_set::StringHashSet;
use vstd::prelude::*;

use crate::seqs;
use crate::text::{chars_of, owned, string_from};

verus! {

/// The component that stands for the root directory.
pub open spec fn root_part() -> Seq<char> {
    seq!['/']
}

/// What a component looks like: the root directory, in first place only, or
/// a non-empty text without a slash, which is `.` in first place only.
pub open spec fn part_ok(part: Seq<char>, index: int) -> bool {
    &&& part.len() > 0
    &&& (index == 0 && part == root_part()) || !part.contains('/')
    &&& part == seq!['.'] ==> index == 0
}

/// True of every sequence of components that a path can have.
pub open spec fn valid_parts(parts: Seq<Seq<char>>) -> bool {
    forall|i: int| 0 <= i < parts.len() ==> part_ok(#[trigger] parts[i], i)
}

/// `text` cut at its slashes: one more segment than there are slashes.
pub open spec fn segments(text: Seq<char>) -> Seq<Seq<char>>
    decreases text.len(),
{
    if text.len() == 0 {
        seq![Seq::<char>::empty()]
    } else {
        let before = segments(text.drop_last());
        if text.last() == '/' {
            before.push(Seq::<char>::empty())
        } else {
            before.drop_last().push(before.last().push(text.last()))
        }
    }
}

/// Whether a segment becomes a component. Empty segments do not, and neither
/// does `.`, unless it opens a relative path.
pub open spec fn segment_kept(segment: Seq<char>, index: int, opens: bool) -> bool {
    segment.len() > 0 && (segment == seq!['.'] ==> (opens && index == 0))
}

/// The components among the first `n` segments.
pub open spec fn kept_segments(segs: Seq<Seq<char>>, n: nat, opens: bool) -> Seq<Seq<char>>
    decreases n,
{
    if n == 0 {
        Seq::empty()
    } else {
        let before = kept_segments(segs, (n - 1) as nat, opens);
        if segment_kept(segs[n - 1], n - 1, opens) {
            before.push(segs[n - 1])
        } else {
            before
        }
    }
}

/// The components of `base` extended by `text`: an absolute `text` replaces
/// the base, a relative one is appended component by component.
pub open spec fn join_parts(base: Seq<Seq<char>>, text: Seq<char>) -> Seq<Seq<char>> {
    let segs = segments(text);
    if text.len() > 0 && text[0] == '/' {
        seq![root_part()] + kept_segments(segs, segs.len(), false)
    } else {
        base + kept_segments(segs, segs.len(), base.len() == 0)
    }
}

/// The components of the path written as `text`.
pub open spec fn parse_parts(text: Seq<char>) -> Seq<Seq<char>> {
    join_parts(Seq::empty(), text)
}

/// Every component followed by a slash, except that the root is one already.
pub open spec fn spelled(parts: Seq<Seq<char>>) -> Seq<char>
    decreases parts.len(),
{
    if parts.len() == 0 {
        Seq::empty()
    } else {
        let before = spelled(parts.drop_last()) + parts.last();
        if parts.last() == root_part() {
            before
        } else {
            before.push('/')
        }
    }
}

/// The path that contains `parts`; the root and the empty path have none.
pub open spec fn parent_parts(parts: Seq<Seq<char>>) -> Option<Seq<Seq<char>>> {
    if parts.len() == 0 || parts.last() == root_part() {
        None
    } else {
        Some(parts.drop_last())
    }
}

/// A name that is one component: what a directory entry is called.
pub open spec fn plain_name(name: Seq<char>) -> bool {
    name.len() > 0 && !name.contains('/') && name != seq!['.']
}

/// The text of `base` extended by `text`: an absolute `text` replaces the base, a relative
/// one stands behind it, with a slash between them unless the base is empty or ends in one.
pub open spec fn join_text(base: Seq<char>, text: Seq<char>) -> Seq<char> {
    if text.len() > 0 && text[0] == '/' {
        text
    } else if base.len() > 0 && base.last() != '/' {
        base.push('/') + text
    } else {
        base + text
    }
}

/// The shortest beginning of `text`, of length `k` or more, that has these components.
pub open spec fn shortest(text: Seq<char>, parts: Seq<Seq<char>>, k: int) -> Seq<char>
    decreases text.len() - k,
{
    if k >= text.len() || parse_parts(text.take(k)) == parts {
        text.take(k)
    } else {
        shortest(text, parts, k + 1)
    }
}

/// The shortest end of `text`, no longer than from `k` on, that has these components; the
/// whole text where there is none.
pub open spec fn ending(text: Seq<char>, parts: Seq<Seq<char>>, k: int) -> Seq<char>
    decreases k,
{
    if k <= 0 || parse_parts(text.skip(k)) == parts {
        text.skip(k)
    } else {
        ending(text, parts, k - 1)
    }
}

/// Where something is: the components of its path, and how that is written.
pub struct Place {
    pub parts: Seq<Seq<char>>,
    pub text: Seq<char>,
}

/// The place written as `text`.
pub open spec fn place(text: Seq<char>) -> Place {
    Place { parts: parse_parts(text), text }
}

/// A place extended by `text`.
pub open spec fn join_place(base: Place, text: Seq<char>) -> Place {
    Place { parts: join_parts(base.parts, text), text: join_text(base.text, text) }
}

/// What is written as `text` extended by the components of `target` from `from` up to
/// `to`, one after another.
pub open spec fn led(text: Seq<char>, target: Seq<Seq<char>>, from: int, to: int) -> Seq<char>
    decreases to - from,
{
    if from >= to {
        text
    } else {
        led(join_text(text, target[from]), target, from + 1, to)
    }
}

/// The place that names lead to, one after another.
pub open spec fn place_of(names: Seq<Seq<char>>) -> Place
    decreases names.len(),
{
    if names.len() == 0 {
        place(Seq::empty())
    } else {
        join_place(place_of(names.drop_last()), names.last())
    }
}

/// The place that contains another; the root and the empty path have none. It is written
/// as the beginning of that place's text.
pub open spec fn parent_place(place: Place) -> Option<Place> {
    match parent_parts(place.parts) {
        Some(parts) => Some(Place { parts, text: shortest(place.text, parts, 0) }),
        None => None,
    }
}

/// How a path is written from below `n` of its components: the piece of its text that
/// has the others.
pub open spec fn text_from(place: Place, n: nat) -> Seq<char> {
    let whole = shortest(place.text, place.parts, 0);
    if n == 0 {
        whole
    } else {
        ending(whole, place.parts.skip(n as int), whole.len() as int)
    }
}

proof fn lemma_segments_nonempty(text: Seq<char>)
    ensures
        segments(text).len() > 0,
    decreases text.len(),
{
    if text.len() > 0 {
        lemma_segments_nonempty(text.drop_last());
    }
}

proof fn lemma_segments_no_slash(text: Seq<char>)
    ensures
        forall|i: int|
            0 <= i < segments(text).len() ==> !(#[trigger] segments(text)[i]).contains('/'),
    decreases text.len(),
{
    if text.len() > 0 {
        lemma_segments_no_slash(text.drop_last());
        lemma_segments_nonempty(text.drop_last());
        let before = segments(text.drop_last());
        assert(!before.last().contains('/'));
        if text.last() != '/' {
            assert forall|k: int| 0 <= k < before.last().push(text.last()).len() implies before.last().push(
                text.last(),
            )[k] != '/' by {
                if k < before.last().len() {
                    assert(before.last().contains(before.last()[k]));
                }
            }
        }
    }
}

proof fn lemma_kept_valid(segs: Seq<Seq<char>>, n: nat, opens: bool)
    requires
        n <= segs.len(),
        forall|i: int| 0 <= i < segs.len() ==> !(#[trigger] segs[i]).contains('/'),
    ensures
        forall|i: int|
            0 <= i < kept_segments(segs, n, opens).len() ==> {
                let part = #[trigger] kept_segments(segs, n, opens)[i];
                &&& part.len() > 0
                &&& !part.contains('/')
                &&& part == seq!['.'] ==> opens && i == 0
            },
        n == 0 ==> kept_segments(segs, n, opens).len() == 0,
        kept_segments(segs, n, opens).len() <= n,
    decreases n,
{
    if n > 0 {
        lemma_kept_valid(segs, (n - 1) as nat, opens);
        let before = kept_segments(segs, (n - 1) as nat, opens);
        let all = kept_segments(segs, n, opens);
        assert(!segs[n - 1].contains('/'));
        assert forall|i: int| 0 <= i < all.len() implies {
            let part = #[trigger] all[i];
            &&& part.len() > 0
            &&& !part.contains('/')
            &&& part == seq!['.'] ==> opens && i == 0
        } by {
            if i < before.len() {
                assert(all[i] == before[i]);
            }
        }
    }
}

/// Joining keeps components valid.
pub proof fn lemma_join_valid(base: Seq<Seq<char>>, text: Seq<char>)
    requires
        valid_parts(base),
    ensures
        valid_parts(join_parts(base, text)),
{
    let segs = segments(text);
    lemma_segments_no_slash(text);
    lemma_kept_valid(segs, segs.len(), false);
    lemma_kept_valid(segs, segs.len(), base.len() == 0);
    let kept = kept_segments(segs, segs.len(), base.len() == 0);
    let joined = join_parts(base, text);
    assert forall|i: int| 0 <= i < joined.len() implies part_ok(#[trigger] joined[i], i) by {
        if text.len() > 0 && text[0] == '/' {
            if i > 0 {
                assert(joined[i] == kept_segments(segs, segs.len(), false)[i - 1]);
            }
        } else if i < base.len() {
            assert(joined[i] == base[i]);
        } else {
            assert(joined[i] == kept[i - base.len()]);
        }
    }
}

pub(crate) proof fn lemma_segments_plain(text: Seq<char>)
    requires
        !text.contains('/'),
    ensures
        segments(text) =~= seq![text],
    decreases text.len(),
{
    if text.len() > 0 {
        assert(text.contains(text.last()));
        assert forall|k: int| 0 <= k < text.drop_last().len() implies text.drop_last()[k] != '/' by {
            assert(text.contains(text[k]));
        }
        lemma_segments_plain(text.drop_last());
        assert(text.drop_last().push(text.last()) =~= text);
    } else {
        assert(text =~= Seq::<char>::empty());
    }
}

/// Joining a directory entry's name appends exactly that name.
pub proof fn lemma_join_plain(base: Seq<Seq<char>>, name: Seq<char>)
    requires
        plain_name(name),
    ensures
        join_parts(base, name) == base.push(name),
{
    lemma_segments_plain(name);
    assert(name.contains(name[0]));
    let segs = segments(name);
    let opens = base.len() == 0;
    assert(kept_segments(segs, 0, opens) =~= Seq::<Seq<char>>::empty());
    assert(kept_segments(segs, 1, opens) =~= seq![name]);
    assert(base + seq![name] =~= base.push(name));
}

/// The component that leads from `base` toward `target`, where `base`
/// contains `target`.
pub open spec fn next_part(base: Seq<Seq<char>>, target: Seq<Seq<char>>) -> Option<Seq<char>> {
    if base.len() < target.len() && base == target.take(base.len() as int) {
        Some(target[base.len() as int])
    } else {
        None
    }
}

/// Stepping toward a path extends the base by one component.
pub proof fn lemma_join_next(base: Seq<Seq<char>>, target: Seq<Seq<char>>)
    requires
        valid_parts(target),
        next_part(base, target) is Some,
    ensures
        join_parts(base, next_part(base, target)->0) == base.push(next_part(base, target)->0),
        base.push(next_part(base, target)->0) == target.take(base.len() as int + 1),
{
    let part = target[base.len() as int];
    assert(part_ok(part, base.len() as int));
    assert(base.push(part) =~= target.take(base.len() as int + 1));
    if plain_name(part) {
        lemma_join_plain(base, part);
    } else if part == root_part() {
        reveal_with_fuel(segments, 2);
        reveal_with_fuel(kept_segments, 3);
        assert(base =~= Seq::empty());
        assert(part.drop_last() =~= Seq::<char>::empty());
        assert(segments(part) =~= seq![Seq::<char>::empty(), Seq::<char>::empty()]);
        assert(kept_segments(segments(part), 2, false) =~= Seq::empty());
    } else {
        assert(base =~= Seq::empty());
        assert(part =~= seq!['.']);
        assert(!part.contains('/'));
        lemma_segments_plain(part);
        reveal_with_fuel(kept_segments, 2);
        assert(kept_segments(segments(part), 1, true) =~= seq![part]);
    }
}

proof fn lemma_spelled_ends(parts: Seq<Seq<char>>)
    requires
        valid_parts(parts),
        parts.len() > 0,
    ensures
        spelled(parts).len() > 0,
        spelled(parts).last() == '/',
{
    assert(part_ok(parts.last(), parts.len() - 1));
}

/// Two paths that are spelled alike have the same components.
pub proof fn lemma_spelled_injective(a: Seq<Seq<char>>, b: Seq<Seq<char>>)
    requires
        valid_parts(a),
        valid_parts(b),
        spelled(a) == spelled(b),
    ensures
        a == b,
    decreases a.len(),
{
    if a.len() == 0 || b.len() == 0 {
        if a.len() > 0 {
            lemma_spelled_ends(a);
        }
        if b.len() > 0 {
            lemma_spelled_ends(b);
        }
        assert(a =~= b);
    } else {
        let (a0, x) = (a.drop_last(), a.last());
        let (b0, y) = (b.drop_last(), b.last());
        assert(part_ok(x, a.len() - 1) && part_ok(y, b.len() - 1));
        assert(valid_parts(a0)) by {
            assert forall|i: int| 0 <= i < a0.len() implies part_ok(#[trigger] a0[i], i) by {
                assert(part_ok(a[i], i));
            }
        }
        assert(valid_parts(b0)) by {
            assert forall|i: int| 0 <= i < b0.len() implies part_ok(#[trigger] b0[i], i) by {
                assert(part_ok(b[i], i));
            }
        }
        if a0.len() > 0 {
            lemma_spelled_ends(a0);
        }
        if b0.len() > 0 {
            lemma_spelled_ends(b0);
        }
        let s = spelled(a);
        assert(root_part()[0] == '/');
        assert(root_part().contains('/'));
        if x == root_part() {
            assert(a0.len() == 0);
            assert(s.len() == 1);
            assert(y == root_part());
            assert(a =~= b);
        } else if y == root_part() {
            assert(b0.len() == 0);
            assert(s.len() == 1);
        } else {
            let at_x = s.len() - 1 - x.len();
            let at_y = s.len() - 1 - y.len();
            assert(at_x == spelled(a0).len() && at_y == spelled(b0).len());
            if x.len() < y.len() {
                assert(s[at_x - 1] == '/');
                assert(s[at_x - 1] == y[at_x - 1 - at_y]);
                assert(y.contains(y[at_x - 1 - at_y]));
            } else if y.len() < x.len() {
                assert(s[at_y - 1] == '/');
                assert(s[at_y - 1] == x[at_y - 1 - at_x]);
                assert(x.contains(x[at_y - 1 - at_x]));
            } else {
                assert forall|k: int| 0 <= k < x.len() implies x[k] == y[k] by {
                    assert(x[k] == s[at_x + k]);
                    assert(y[k] == s[at_y + k]);
                }
                assert(x =~= y);
                assert(spelled(a0) =~= s.take(at_x));
                assert(spelled(b0) =~= s.take(at_y));
                lemma_spelled_injective(a0, b0);
                assert(a =~= a0.push(x));
                assert(b =~= b0.push(y));
            }
        }
    }
}

pub(crate) proof fn lemma_segments_join(stem: Seq<char>, text: Seq<char>)
    ensures
        segments(stem.push('/') + text) == segments(stem) + segments(text),
    decreases text.len(),
{
    let whole = stem.push('/') + text;
    let none = seq![Seq::<char>::empty()];
    lemma_segments_nonempty(text);
    if text.len() == 0 {
        assert(whole =~= stem.push('/'));
        assert(whole.drop_last() =~= stem);
        assert(segments(stem).push(Seq::<char>::empty()) =~= segments(stem) + none);
    } else {
        let front = text.drop_last();
        lemma_segments_join(stem, front);
        lemma_segments_nonempty(front);
        assert(whole.drop_last() =~= stem.push('/') + front);
        let (a, b) = (segments(stem), segments(front));
        assert((a + b).drop_last() =~= a + b.drop_last());
        assert(segments(whole) =~= a + segments(text));
    }
}

proof fn lemma_kept_join(a: Seq<Seq<char>>, b: Seq<Seq<char>>, n: nat, opens: bool)
    requires
        a.len() > 0,
        n <= b.len(),
    ensures
        kept_segments(a + b, a.len() + n, opens) == kept_segments(a, a.len(), opens)
            + kept_segments(b, n, false),
    decreases n,
{
    let all = kept_segments(a + b, a.len() + n, opens);
    if n == 0 {
        lemma_kept_prefix(a + b, a, a.len(), opens);
        assert(all =~= kept_segments(a, a.len(), opens) + kept_segments(b, 0, false));
    } else {
        lemma_kept_join(a, b, (n - 1) as nat, opens);
        assert((a + b)[a.len() + n - 1] == b[n - 1]);
        assert((a.len() + n - 1) as nat == a.len() + (n - 1) as nat);
        assert(all =~= kept_segments(a, a.len(), opens) + kept_segments(b, n, false));
    }
}

proof fn lemma_first_segment(text: Seq<char>)
    requires
        text.len() > 0,
        text[0] != '/',
    ensures
        segments(text)[0].len() > 0,
    decreases text.len(),
{
    let front = text.drop_last();
    lemma_segments_nonempty(front);
    if front.len() > 0 {
        lemma_first_segment(front);
    } else {
        assert(segments(front) =~= seq![Seq::<char>::empty()]);
    }
}

proof fn lemma_kept_first(segs: Seq<Seq<char>>, n: nat)
    requires
        0 < n <= segs.len(),
        segs[0].len() > 0,
    ensures
        kept_segments(segs, n, true).len() > 0,
    decreases n,
{
    if n > 1 {
        lemma_kept_first(segs, (n - 1) as nat);
    } else {
        assert(segment_kept(segs[0], 0, true));
    }
}

/// A slash at the end of a text makes no difference, but for that of the root.
proof fn lemma_parse_slash(stem: Seq<char>)
    requires
        stem.len() > 0,
    ensures
        parse_parts(stem.push('/')) == parse_parts(stem),
{
    let text = stem.push('/');
    let segs = segments(stem);
    assert(text.drop_last() =~= stem);
    assert(segments(text) == segs.push(Seq::<char>::empty()));
    lemma_kept_prefix(segs, segments(text), segs.len(), true);
    lemma_kept_prefix(segs, segments(text), segs.len(), false);
    assert(text[0] == stem[0]);
}

/// What is written one behind the other is joined.
proof fn lemma_parse_join(stem: Seq<char>, text: Seq<char>)
    requires
        !(text.len() > 0 && text[0] == '/'),
    ensures
        parse_parts(stem.push('/') + text) == join_parts(parse_parts(stem.push('/')), text),
{
    let whole = stem.push('/') + text;
    let base = stem.push('/');
    let (a, b) = (segments(stem), segments(text));
    lemma_segments_nonempty(stem);
    lemma_segments_join(stem, text);
    assert(base.drop_last() =~= stem);
    assert(segments(base) == a.push(Seq::<char>::empty()));
    let opens = base[0] != '/';
    lemma_kept_join(a, b, b.len(), opens);
    lemma_kept_prefix(a, segments(base), a.len(), opens);
    assert(kept_segments(segments(base), (a.len() + 1) as nat, opens) == kept_segments(
        a,
        a.len(),
        opens,
    ));
    assert(whole[0] == base[0]);
    if opens {
        assert(stem.len() > 0 && stem[0] == base[0]);
        lemma_first_segment(stem);
        lemma_kept_first(a, a.len());
        assert(Seq::<Seq<char>>::empty() + kept_segments(a, a.len(), true) =~= kept_segments(
            a,
            a.len(),
            true,
        ));
        assert(parse_parts(whole) =~= join_parts(parse_parts(base), text));
    } else {
        assert(parse_parts(whole) =~= join_parts(parse_parts(base), text));
    }
}

/// How a joined path is written leads to the joined path.
pub proof fn lemma_join_text(base: Seq<char>, text: Seq<char>)
    ensures
        parse_parts(join_text(base, text)) == join_parts(parse_parts(base), text),
{
    if !(text.len() > 0 && text[0] == '/') {
        if base.len() == 0 {
            reveal_with_fuel(kept_segments, 2);
            assert(base =~= Seq::<char>::empty());
            assert(parse_parts(base) =~= Seq::<Seq<char>>::empty());
            assert(base + text =~= text);
        } else if base.last() == '/' {
            let stem = base.drop_last();
            assert(stem.push('/') =~= base);
            lemma_parse_join(stem, text);
        } else {
            lemma_parse_slash(base);
            lemma_parse_join(base, text);
        }
    }
}

/// A text with a slash is what stands before the last one, and the last segment.
proof fn lemma_last_slash(text: Seq<char>) -> (stem: Seq<char>)
    requires
        segments(text).len() > 1,
    ensures
        text == stem.push('/') + segments(text).last(),
    decreases text.len(),
{
    let front = text.drop_last();
    lemma_segments_nonempty(front);
    assert(front.push(text.last()) =~= text);
    if text.last() == '/' {
        assert(text =~= front.push('/') + segments(text).last());
        front
    } else {
        let stem = lemma_last_slash(front);
        assert(text =~= stem.push('/') + segments(text).last());
        stem
    }
}

proof fn lemma_one_segment(text: Seq<char>)
    requires
        segments(text).len() == 1,
    ensures
        segments(text) == seq![text],
        text.len() > 0 ==> text[0] != '/',
    decreases text.len(),
{
    if text.len() > 0 {
        let front = text.drop_last();
        lemma_segments_nonempty(front);
        lemma_one_segment(front);
        assert(front.push(text.last()) =~= text);
        assert(segments(text) =~= seq![text]);
        if front.len() > 0 {
            assert(text[0] == front[0]);
        }
    } else {
        assert(text =~= Seq::<char>::empty());
    }
}

/// The path that contains another is written as a beginning of its text.
proof fn lemma_parent_begins(text: Seq<char>) -> (k: int)
    requires
        parse_parts(text).len() > 0,
        parse_parts(text).last() != root_part(),
    ensures
        0 <= k <= text.len(),
        parse_parts(text.take(k)) == parse_parts(text).drop_last(),
    decreases text.len(),
{
    let parts = parse_parts(text);
    let segs = segments(text);
    let last = segs.last();
    lemma_segments_nonempty(text);
    reveal_with_fuel(kept_segments, 2);
    if segs.len() == 1 {
        lemma_one_segment(text);
        assert(text.take(0) =~= Seq::<char>::empty());
        assert(parts.drop_last() =~= Seq::<Seq<char>>::empty());
        assert(parse_parts(text.take(0)) =~= Seq::<Seq<char>>::empty());
        0
    } else {
        let stem = lemma_last_slash(text);
        let base = stem.push('/');
        let n = base.len() as int;
        assert(text.take(n) =~= base);
        lemma_segments_no_slash(text);
        assert(!last.contains('/'));
        if last.len() > 0 {
            assert(last.contains(last[0]));
        }
        lemma_parse_join(stem, last);
        lemma_segments_plain(last);
        let opens = parse_parts(base).len() == 0;
        if segment_kept(last, 0, opens) {
            assert(kept_segments(segments(last), 1, opens) =~= seq![last]);
            assert(parts.drop_last() =~= parse_parts(base));
            n
        } else {
            assert(kept_segments(segments(last), 1, opens) =~= Seq::<Seq<char>>::empty());
            assert(parse_parts(base) =~= parts);
            if stem.len() == 0 {
                assert(base =~= root_part());
                assert(segments(base) =~= seq![
                    Seq::<char>::empty(),
                    Seq::<char>::empty(),
                ]) by {
                    assert(base.drop_last() =~= Seq::<char>::empty());
                    assert(base.last() == '/');
                    assert(segments(Seq::<char>::empty()) =~= seq![Seq::<char>::empty()]);
                }
                reveal_with_fuel(kept_segments, 3);
                assert(parse_parts(base) =~= seq![root_part()]);
                0
            } else {
                lemma_parse_slash(stem);
                let k = lemma_parent_begins(stem);
                assert(text.take(k) =~= stem.take(k));
                k
            }
        }
    }
}

proof fn lemma_shortest(text: Seq<char>, parts: Seq<Seq<char>>, from: int, k: int)
    requires
        0 <= from <= k <= text.len(),
        parse_parts(text.take(k)) == parts,
    ensures
        parse_parts(shortest(text, parts, from)) == parts,
    decreases text.len() - from,
{
    if from < text.len() && parse_parts(text.take(from)) != parts {
        lemma_shortest(text, parts, from + 1, k);
    }
}

/// A path: the components between its slashes, and how it is written.
///
/// `a//b`, `a/b/` and `a/./b` are the same path as `a/b`, each shown as it is written.
#[derive(Debug)]
pub struct NodePath {
    parts: Vec<String>,
    text: String,
}

impl PartialEq for NodePath {
    fn eq(&self, other: &Self) -> (same: bool) {
        self.same(other)
    }
}

impl vstd::std_specs::cmp::PartialEqSpecImpl for NodePath {
    open spec fn obeys_eq_spec() -> bool {
        true
    }

    open spec fn eq_spec(&self, other: &Self) -> bool {
        self@ == other@
    }
}

impl Eq for NodePath {

}

impl View for NodePath {
    type V = Seq<Seq<char>>;

    closed spec fn view(&self) -> Seq<Seq<char>> {
        texts(self.parts@)
    }
}

impl Clone for NodePath {
    fn clone(&self) -> (copy: Self)
        ensures
            copy@ == self@,
            copy.spelling() == self.spelling(),
    {
        proof {
            use_type_invariant(self);
        }
        let mut parts: Vec<String> = Vec::new();
        let mut i: usize = 0;
        while i < self.parts.len()
            invariant
                i <= self.parts@.len(),
                parts@ == self.parts@.take(i as int),
            decreases self.parts@.len() - i,
        {
            parts.push(self.parts[i].clone());
            i += 1;
        }
        assert(parts@ =~= self.parts@);
        NodePath { parts, text: self.text.clone() }
    }
}

impl NodePath {
    /// How the path is written.
    pub closed spec fn spelling(&self) -> Seq<char> {
        self.text@
    }

    /// The components of the path, and how it is written.
    pub open spec fn place(&self) -> Place {
        Place { parts: self@, text: self.spelling() }
    }

    #[verifier::type_invariant]
    spec fn inv(self) -> bool {
        valid_parts(self.view()) && parse_parts(self.text@) == self.view()
    }

    /// The path written as `text`.
    pub fn new(text: &str) -> (path: Self)
        ensures
            path@ == parse_parts(text@),
            path.spelling() == text@,
    {
        let empty_parts: Vec<String> = Vec::new();
        proof {
            reveal_with_fuel(kept_segments, 2);
            assert(texts(empty_parts@) =~= Seq::<Seq<char>>::empty());
            assert(parse_parts(Seq::<char>::empty()) =~= Seq::<Seq<char>>::empty());
        }
        let empty = NodePath { parts: empty_parts, text: String::new() };
        assert(join_text(Seq::<char>::empty(), text@) =~= text@);
        empty.join(text)
    }

    /// The path that `names` lead to, one after another. A caller whose paths are not
    /// written with slashes hands over their components.
    pub fn from_components(names: &Vec<String>) -> (path: Self)
        ensures
            path.place() == place_of(texts(names@)),
    {
        let ghost all = texts(names@);
        let mut path = NodePath::new("");
        let mut i: usize = 0;
        proof {
            reveal_strlit("");
            assert(""@ =~= Seq::<char>::empty());
            assert(all.take(0) =~= Seq::<Seq<char>>::empty());
        }
        while i < names.len()
            invariant
                i <= names@.len(),
                all == texts(names@),
                path.place() == place_of(all.take(i as int)),
            decreases names@.len() - i,
        {
            assert(all.take(i + 1).drop_last() =~= all.take(i as int));
            path = path.join(names[i].as_str());
            i += 1;
        }
        assert(all.take(i as int) =~= all);
        path
    }

    /// This path extended by `text`.
    pub fn join(&self, text: &str) -> (path: Self)
        ensures
            path@ == join_parts(self@, text@),
            path.spelling() == join_text(self.spelling(), text@),
    {
        proof {
            use_type_invariant(self);
            lemma_join_valid(self@, text@);
            lemma_join_text(self.text@, text@);
        }
        let chars: Vec<char> = chars_of(text);
        let absolute: bool = chars.len() > 0 && chars[0] == '/';
        let mut parts: Vec<String> = Vec::new();
        if absolute {
            parts.push(root_text());
        } else {
            let copy = self.clone();
            parts = copy.into_parts();
        }
        let opens: bool = !absolute && self.parts.len() == 0;
        let ghost base = texts(parts@);
        let ghost segs = segments(text@);
        let mut start: usize = 0;
        let mut index: usize = 0;
        let mut i: usize = 0;
        while i < chars.len()
            invariant
                chars@ == text@,
                start <= i <= chars@.len(),
                index <= i,
                segments(chars@.take(i as int)).len() == index + 1,
                segments(chars@.take(i as int)).last() == chars@.subrange(start as int, i as int),
                texts(parts@) == base + kept_segments(
                    segments(chars@.take(i as int)),
                    index as nat,
                    opens,
                ),
            decreases chars@.len() - i,
        {
            let ghost before = chars@.take(i as int);
            let ghost after = chars@.take(i + 1);
            proof {
                lemma_segments_nonempty(before);
                assert(after.drop_last() =~= before);
                assert(after.last() == chars@[i as int]);
                lemma_kept_prefix(segments(before), segments(after), index as nat, opens);
            }
            if chars[i] == '/' {
                let ghost old_parts = texts(parts@);
                push_segment(&mut parts, &chars, start, i, index, opens);
                proof {
                    lemma_kept_prefix(
                        segments(before),
                        segments(after),
                        (index + 1) as nat,
                        opens,
                    );
                    assert(texts(parts@) =~= base + kept_segments(
                        segments(before),
                        (index + 1) as nat,
                        opens,
                    ));
                    assert(chars@.subrange(i + 1, i + 1) =~= Seq::<char>::empty());
                }
                start = i + 1;
                index += 1;
            } else {
                assert(chars@.subrange(start as int, i + 1) =~= chars@.subrange(
                    start as int,
                    i as int,
                ).push(chars@[i as int]));
            }
            i += 1;
        }
        assert(chars@.take(i as int) =~= text@);
        push_segment(&mut parts, &chars, start, i, index, opens);
        proof {
            assert(texts(parts@) =~= base + kept_segments(segs, segs.len(), opens));
            assert(texts(parts@) == join_parts(self@, text@));
        }
        NodePath { parts, text: self.joined_text(text, absolute) }
    }

    fn joined_text(&self, text: &str, absolute: bool) -> (joined: String)
        requires
            absolute == (text@.len() > 0 && text@[0] == '/'),
        ensures
            joined@ == join_text(self.spelling(), text@),
    {
        if absolute {
            return owned(text);
        }
        let mut joined = self.text.clone();
        let chars: Vec<char> = chars_of(joined.as_str());
        if chars.len() > 0 && chars[chars.len() - 1] != '/' {
            joined.push('/');
        }
        joined.append(text);
        joined
    }

    /// Whether both paths have the same components.
    pub fn same(&self, other: &NodePath) -> (same: bool)
        ensures
            same == (self@ == other@),
    {
        if self.parts.len() != other.parts.len() {
            return false;
        }
        self.is_within_first(other, other.parts.len())
    }

    /// Whether the first `n` components of both paths agree.
    fn is_within_first(&self, other: &NodePath, n: usize) -> (same: bool)
        requires
            n <= self@.len(),
            n <= other@.len(),
        ensures
            same == (self@.take(n as int) == other@.take(n as int)),
            n == self@.len() && n == other@.len() ==> same == (self@ == other@),
    {
        let mut i: usize = 0;
        while i < n
            invariant
                i <= n <= self@.len(),
                n <= other@.len(),
                self@.take(i as int) == other@.take(i as int),
            decreases n - i,
        {
            if !(*self.parts[i].as_str() == *other.parts[i].as_str()) {
                assert(self@[i as int] != other@[i as int]);
                assert(self@.take(n as int)[i as int] != other@.take(n as int)[i as int]);
                return false;
            }
            assert(self@[i as int] == other@[i as int]);
            assert(self@.take(i + 1) =~= other@.take(i + 1));
            i += 1;
        }
        proof {
            if n == self@.len() && n == other@.len() {
                assert(self@.take(n as int) =~= self@);
                assert(other@.take(n as int) =~= other@);
            }
        }
        true
    }

    /// Whether `other` is this path or lies beneath it.
    pub fn contains(&self, other: &NodePath) -> (within: bool)
        ensures
            within == (self@.len() <= other@.len() && self@ == other@.take(self@.len() as int)),
    {
        assert(self@.take(self@.len() as int) =~= self@);
        self.parts.len() <= other.parts.len() && self.is_within_first(other, self.parts.len())
    }

    /// The component that leads from this path toward `target`: `None`
    /// unless `target` lies strictly beneath this path.
    pub fn next_toward<'a>(&self, target: &'a NodePath) -> (part: Option<&'a str>)
        ensures
            part is Some <==> next_part(self@, target@) is Some,
            part is Some ==> part->0@ == next_part(self@, target@)->0,
            part is Some ==> join_parts(self@, part->0@) == self@.push(part->0@),
    {
        proof {
            use_type_invariant(target);
        }
        if self.parts.len() < target.parts.len() && self.contains(target) {
            proof {
                lemma_join_next(self@, target@);
            }
            Some(target.parts[self.parts.len()].as_str())
        } else {
            None
        }
    }

    /// The path that contains this one; the root and the empty path have none.
    pub fn parent(&self) -> (parent: Option<NodePath>)
        ensures
            parent is Some <==> parent_place(self.place()) is Some,
            parent is Some ==> parent->0.place() == parent_place(self.place())->0,
    {
        let n: usize = self.parts.len();
        if n == 0 {
            return None;
        }
        let root: bool = self.parts[n - 1].as_str().eq("/");
        proof {
            reveal_strlit("/");
            assert("/"@ =~= root_part());
            assert(self@.last() == self.parts@[n - 1]@);
        }
        if root {
            return None;
        }
        let ghost parts = self@.drop_last();
        let chars: Vec<char> = chars_of(self.text.as_str());
        let mut k: usize = 0;
        proof {
            use_type_invariant(self);
            let end = lemma_parent_begins(self.text@);
            lemma_shortest(self.text@, parts, 0, end);
            assert(self@.take(n - 1) =~= parts);
        }
        while k < chars.len()
            invariant
                k <= chars@.len(),
                chars@ == self.text@,
                n == self@.len(),
                n > 0,
                self@.last() != root_part(),
                parts == self@.take(n - 1),
                parts == self@.drop_last(),
                shortest(self.text@, parts, k as int) == shortest(self.text@, parts, 0),
            decreases chars@.len() - k,
        {
            let start = NodePath::new(string_from(chars.as_slice(), 0, k).as_str());
            assert(chars@.subrange(0, k as int) =~= chars@.take(k as int));
            if start.parts.len() == n - 1 && start.is_within_first(self, n - 1) {
                assert(start@.take(n - 1) =~= start@);
                return Some(start);
            }
            assert(start@ == parts ==> start@.take(n - 1) =~= start@);
            k += 1;
        }
        let whole = NodePath::new(self.text.as_str());
        assert(self.text@.take(k as int) =~= self.text@);
        Some(whole)
    }

    /// The last component, where it names an entry: not the root, `.` or `..`.
    pub fn file_name(&self) -> (name: Option<&str>)
        ensures
            name is Some <==> (self@.len() > 0 && self@.last() != root_part() && self@.last()
                != seq!['.'] && self@.last() != seq!['.', '.']),
            name is Some ==> name->0@ == self@.last(),
    {
        let n: usize = self.parts.len();
        if n == 0 {
            return None;
        }
        let last: &str = self.parts[n - 1].as_str();
        proof {
            reveal_strlit("/");
            reveal_strlit(".");
            reveal_strlit("..");
            assert("/"@ =~= root_part());
            assert("."@ =~= seq!['.']);
            assert(".."@ =~= seq!['.', '.']);
            assert(self@.last() == self.parts@[n - 1]@);
        }
        if last.eq("/") || last.eq(".") || last.eq("..") {
            None
        } else {
            Some(last)
        }
    }

    /// The text that spells the path: see `spelled`.
    fn spell(&self) -> (text: String)
        ensures
            text@ == spelled(self@),
    {
        let mut text = String::new();
        let mut i: usize = 0;
        while i < self.parts.len()
            invariant
                i <= self.parts@.len(),
                text@ == spelled(self@.take(i as int)),
            decreases self.parts@.len() - i,
        {
            proof {
                assert(self@.take(i + 1).drop_last() =~= self@.take(i as int));
                reveal_strlit("/");
                assert("/"@ =~= root_part());
            }
            text.append(self.parts[i].as_str());
            if !self.parts[i].as_str().eq("/") {
                text.push('/');
            }
            i += 1;
        }
        assert(self@.take(i as int) =~= self@);
        text
    }

    /// The path as it is written.
    pub fn to_text(&self) -> (text: String)
        ensures
            text@ == self.spelling(),
            parse_parts(text@) == self@,
    {
        proof {
            use_type_invariant(self);
        }
        self.text.clone()
    }

    /// How this path is written from below `base`; `None` where it does not lie
    /// there.
    pub fn text_below(&self, base: &NodePath) -> (text: Option<String>)
        ensures
            match text {
                Some(text) => base@.len() <= self@.len() && base@ == self@.take(
                    base@.len() as int,
                ) && text@ == text_from(self.place(), base@.len()),
                None => !(base@.len() <= self@.len() && base@ == self@.take(base@.len() as int)),
            },
    {
        if !base.contains(self) {
            return None;
        }
        let ghost rest = self@.skip(base@.len() as int);
        let chars: Vec<char> = chars_of(self.text.as_str());
        let mut end: usize = 0;
        while end < chars.len() && !NodePath::new(
            string_from(chars.as_slice(), 0, end).as_str(),
        ).same(self)
            invariant
                end <= chars@.len(),
                chars@ == self.text@,
                shortest(self.text@, self@, end as int) == shortest(self.text@, self@, 0),
            decreases chars@.len() - end,
        {
            assert(chars@.subrange(0, end as int) =~= chars@.take(end as int));
            end += 1;
        }
        assert(chars@.subrange(0, end as int) =~= chars@.take(end as int));
        let ghost whole = shortest(self.text@, self@, 0);
        assert(whole == chars@.take(end as int));
        if base.parts.len() == 0 {
            return Some(string_from(chars.as_slice(), 0, end));
        }
        let mut k: usize = end;
        while k > 0
            invariant
                k <= end <= chars@.len(),
                base@.len() > 0,
                base@.len() <= self@.len(),
                base@ == self@.take(base@.len() as int),
                rest == self@.skip(base@.len() as int),
                whole == chars@.take(end as int),
                whole == shortest(self.text@, self@, 0),
                end == whole.len(),
                ending(whole, rest, k as int) == ending(whole, rest, end as int),
            decreases k,
        {
            let piece = string_from(chars.as_slice(), k, end);
            assert(chars@.subrange(k as int, end as int) =~= whole.skip(k as int));
            if NodePath::new(piece.as_str()).is_rest(self, base.parts.len()) {
                return Some(piece);
            }
            k -= 1;
        }
        assert(chars@.subrange(0, end as int) =~= whole.skip(0));
        Some(string_from(chars.as_slice(), 0, end))
    }

    /// Whether this path has the components of `other` from `n` on.
    fn is_rest(&self, other: &NodePath, n: usize) -> (same: bool)
        requires
            n <= other@.len(),
        ensures
            same == (self@ == other@.skip(n as int)),
    {
        assert(self@.len() == self.parts@.len() && other@.len() == other.parts@.len());
        if self.parts.len() != other.parts.len() - n {
            return false;
        }
        let whole: usize = other.parts.len();
        let mut i: usize = 0;
        while i < self.parts.len()
            invariant
                i <= self@.len(),
                n <= other@.len(),
                whole == other@.len(),
                self@.len() == other@.len() - n,
                self@.len() == self.parts@.len(),
                other@.len() == other.parts@.len(),
                forall|k: int| 0 <= k < i ==> self@[k] == #[trigger] other@.skip(n as int)[k],
            decreases self@.len() - i,
        {
            if !(*self.parts[i].as_str() == *other.parts[n + i].as_str()) {
                assert(self@[i as int] != other@.skip(n as int)[i as int]);
                return false;
            }
            i += 1;
        }
        assert(self@ =~= other@.skip(n as int));
        true
    }

    fn into_parts(self) -> (parts: Vec<String>)
        ensures
            texts(parts@) == self@,
    {
        self.parts
    }
}

/// The characters of each string.
pub open spec fn texts(parts: Seq<String>) -> Seq<Seq<char>> {
    parts.map_values(|part: String| part@)
}

proof fn lemma_kept_prefix(a: Seq<Seq<char>>, b: Seq<Seq<char>>, n: nat, opens: bool)
    requires
        forall|i: int| 0 <= i < n ==> a[i] == b[i],
    ensures
        kept_segments(a, n, opens) == kept_segments(b, n, opens),
    decreases n,
{
    if n > 0 {
        lemma_kept_prefix(a, b, (n - 1) as nat, opens);
    }
}

fn root_text() -> (text: String)
    ensures
        text@ == root_part(),
{
    let mut text = String::new();
    text.push('/');
    assert(text@ =~= root_part());
    text
}

/// Adds the segment `chars[from..to]` where it is a component.
fn push_segment(
    parts: &mut Vec<String>,
    chars: &Vec<char>,
    from: usize,
    to: usize,
    index: usize,
    opens: bool,
)
    requires
        from <= to <= chars@.len(),
    ensures
        ({
            let segment = chars@.subrange(from as int, to as int);
            texts(final(parts)@) == if segment_kept(segment, index as int, opens) {
                texts(old(parts)@).push(segment)
            } else {
                texts(old(parts)@)
            }
        }),
{
    let ghost segment = chars@.subrange(from as int, to as int);
    let dot: bool = to - from == 1 && chars[from] == '.';
    proof {
        if segment == seq!['.'] {
            assert(segment.len() == 1 && segment[0] == '.');
        }
        if dot {
            assert(segment =~= seq!['.']);
        }
    }
    if from < to && (!dot || (opens && index == 0)) {
        let part = string_from(chars.as_slice(), from, to);
        parts.push(part);
        assert(texts(parts@) =~= texts(old(parts)@).push(segment));
    }
}

/// The place of each path.
pub open spec fn places(paths: Seq<NodePath>) -> Seq<Place> {
    paths.map_values(|path: NodePath| path.place())
}

/// The components of each place.
pub open spec fn parts_of(places: Seq<Place>) -> Seq<Seq<Seq<char>>> {
    places.map_values(|place: Place| place.parts)
}

/// The components of each path.
pub open spec fn path_views(paths: Seq<NodePath>) -> Seq<Seq<Seq<char>>> {
    parts_of(places(paths))
}

/// A set of paths that remembers the order in which they were added.
pub struct PathSet {
    members: Vec<NodePath>,
    keys: StringHashSet,
}

impl View for PathSet {
    type V = Set<Seq<Seq<char>>>;

    open spec fn view(&self) -> Set<Seq<Seq<char>>> {
        self.order().to_set()
    }
}

/// Whether `keys` holds what the paths of `order` spell, and nothing else.
spec fn keyed(order: Seq<Seq<Seq<char>>>, keys: Set<Seq<char>>) -> bool {
    &&& order.no_duplicates()
    &&& forall|i: int| 0 <= i < order.len() ==> valid_parts(#[trigger] order[i])
    &&& forall|i: int| 0 <= i < order.len() ==> keys.contains(spelled(#[trigger] order[i]))
    &&& forall|key: Seq<char>|
        #[trigger] keys.contains(key) ==> exists|i: int|
            0 <= i < order.len() && spelled(#[trigger] order[i]) == key
}

proof fn lemma_keyed_contains(
    order: Seq<Seq<Seq<char>>>,
    keys: Set<Seq<char>>,
    path: Seq<Seq<char>>,
)
    requires
        keyed(order, keys),
        valid_parts(path),
    ensures
        keys.contains(spelled(path)) == order.contains(path),
{
    if keys.contains(spelled(path)) {
        let i = choose|i: int| 0 <= i < order.len() && spelled(#[trigger] order[i]) == spelled(path);
        lemma_spelled_injective(order[i], path);
        assert(order[i] == path);
    }
    if order.contains(path) {
        let i = order.index_of(path);
        assert(order[i] == path);
    }
}

impl PathSet {
    /// The members, in the order in which they were added, each as it was written then.
    pub closed spec fn places(&self) -> Seq<Place> {
        places(self.members@)
    }

    /// The members, in the order in which they were added.
    pub open spec fn order(&self) -> Seq<Seq<Seq<char>>> {
        parts_of(self.places())
    }

    #[verifier::type_invariant]
    spec fn inv(self) -> bool {
        keyed(self.order(), self.keys@)
    }

    /// The empty set.
    pub fn new() -> (set: Self)
        ensures
            set@ == Set::<Seq<Seq<char>>>::empty(),
            set.places() == Seq::<Place>::empty(),
    {
        let members: Vec<NodePath> = Vec::new();
        assert(places(members@) =~= Seq::empty());
        assert(path_views(members@) =~= Seq::empty());
        let set = PathSet { members, keys: StringHashSet::new() };
        assert(set@ =~= Set::empty());
        set
    }

    /// Whether `path` is a member.
    pub fn contains(&self, path: &NodePath) -> (found: bool)
        ensures
            found == self@.contains(path@),
    {
        let key = path.spell();
        proof {
            use_type_invariant(self);
            use_type_invariant(path);
            lemma_keyed_contains(self.order(), self.keys@, path@);
        }
        self.keys.contains(key.as_str())
    }

    /// The number of members.
    pub fn len(&self) -> (n: usize)
        ensures
            n == self@.len(),
            n == self.places().len(),
    {
        proof {
            use_type_invariant(self);
            self.order().unique_seq_to_set();
        }
        self.members.len()
    }

    /// Whether there are no members.
    pub fn is_empty(&self) -> (empty: bool)
        ensures
            empty == (self@ == Set::<Seq<Seq<char>>>::empty()),
    {
        let empty = self.members.len() == 0;
        proof {
            if empty {
                assert(self@ =~= Set::empty());
            } else {
                assert(self.order().contains(self.order()[0]));
                assert(self@.contains(self.order()[0]));
            }
        }
        empty
    }

    /// The members, in the order in which they were added.
    pub fn members(&self) -> (members: &Vec<NodePath>)
        ensures
            places(members@) == self.places(),
            path_views(members@).no_duplicates(),
    {
        proof {
            use_type_invariant(self);
        }
        &self.members
    }

    /// The members, in the order in which they were added.
    pub fn into_members(self) -> (members: Vec<NodePath>)
        ensures
            places(members@) == self.places(),
            path_views(members@).no_duplicates(),
    {
        proof {
            use_type_invariant(&self);
        }
        self.members
    }

    /// Adds `path`. True where it was not a member yet.
    pub fn insert(&mut self, path: &NodePath) -> (added: bool)
        ensures
            added == !old(self)@.contains(path@),
            final(self)@ == old(self)@.insert(path@),
            final(self).places() == if added {
                old(self).places().push(path.place())
            } else {
                old(self).places()
            },
    {
        if self.contains(path) {
            assert(self@.insert(path@) =~= self@);
            return false;
        }
        let key = path.spell();
        let copy = path.clone();
        let mut other = PathSet::new();
        std::mem::swap(&mut other, self);
        let ghost before = other;
        proof {
            use_type_invariant(&other);
            use_type_invariant(path);
        }
        let PathSet { mut members, mut keys } = other;
        members.push(copy);
        keys.insert(key);
        proof {
            let order = before.order();
            let after = path_views(members@);
            assert(places(members@) =~= before.places().push(path.place()));
            assert(after =~= order.push(path@));
            assert forall|i: int| 0 <= i < after.len() implies keys@.contains(
                spelled(#[trigger] after[i]),
            ) by {
                if i < order.len() {
                    assert(after[i] == order[i]);
                }
            }
            assert forall|k: Seq<char>| #[trigger] keys@.contains(k) implies exists|i: int|
                0 <= i < after.len() && spelled(#[trigger] after[i]) == k by {
                if before.keys@.contains(k) {
                    let i = choose|i: int| 0 <= i < order.len() && spelled(#[trigger] order[i]) == k;
                    assert(after[i] == order[i]);
                } else {
                    assert(after[order.len() as int] == path@);
                }
            }
            assert(after.no_duplicates()) by {
                assert forall|i: int, j: int|
                    0 <= i < after.len() && 0 <= j < after.len() && i != j implies after[i]
                    != after[j] by {
                    if i < order.len() && j < order.len() {
                    } else if i < order.len() {
                        assert(order.contains(order[i]));
                    } else {
                        assert(order.contains(order[j]));
                    }
                }
            }
            assert(after.to_set() =~= order.to_set().insert(path@)) by {
                assert forall|p: Seq<Seq<char>>|
                    after.contains(p) == (order.contains(p) || p == path@) by {
                    if order.contains(p) {
                        let i = order.index_of(p);
                        assert(after[i] == p);
                    }
                    if p == path@ {
                        assert(after[order.len() as int] == p);
                    }
                    if after.contains(p) {
                        let i = after.index_of(p);
                        if i < order.len() {
                            assert(order[i] == p);
                        }
                    }
                }
            }
        }
        *self = PathSet { members, keys };
        true
    }

    /// Drops every member.
    pub fn clear(&mut self)
        ensures
            final(self)@ == Set::<Seq<Seq<char>>>::empty(),
            final(self).places() == Seq::<Place>::empty(),
    {
        *self = PathSet::new();
    }

    /// Removes `path`. True where it was a member; the order of the other
    /// members stays.
    pub fn remove(&mut self, path: &NodePath) -> (removed: bool)
        ensures
            removed == old(self)@.contains(path@),
            final(self)@ == old(self)@.remove(path@),
            final(self).places() == old(self).places().filter(|p: Place| p.parts != path@),
    {
        let removed = self.contains(path);
        let ghost all = self.places();
        let ghost order = self.order();
        let ghost keep = |p: Place| p.parts != path@;
        let mut rest = PathSet::new();
        let mut i: usize = 0;
        proof {
            use_type_invariant(&*self);
            assert(all.take(0).filter(keep) =~= Seq::empty()) by {
                reveal(Seq::filter);
            }
        }
        while i < self.members.len()
            invariant
                i <= self.members@.len(),
                self.places() == all,
                order == parts_of(all),
                order.no_duplicates(),
                keep == (|p: Place| p.parts != path@),
                rest.places() == all.take(i as int).filter(keep),
            decreases self.members@.len() - i,
        {
            let ghost here = all[i as int];
            proof {
                reveal(Seq::filter);
                assert(all.take(i + 1).drop_last() =~= all.take(i as int));
                assert(self.members@[i as int].place() == here);
                if rest@.contains(here.parts) {
                    let j = rest.order().index_of(here.parts);
                    let twin = rest.places()[j];
                    assert(rest.places().contains(twin));
                    seqs::lemma_filter_contains(all.take(i as int), keep, twin);
                    let k = all.take(i as int).index_of(twin);
                    assert(all.take(i as int)[k] == all[k]);
                    assert(order[k] == order[i as int]);
                    assert(false);
                }
            }
            if !self.members[i].same(path) {
                rest.insert(&self.members[i]);
            }
            i += 1;
        }
        proof {
            assert(all.take(i as int) =~= all);
            assert forall|p: Seq<Seq<char>>| rest@.contains(p) == (self@.contains(p) && p != path@) by {
                if rest@.contains(p) {
                    let twin = rest.places()[rest.order().index_of(p)];
                    assert(rest.places().contains(twin));
                    seqs::lemma_filter_contains(all, keep, twin);
                    let k = all.index_of(twin);
                    assert(order[k] == p);
                }
                if self@.contains(p) && p != path@ {
                    let twin = all[order.index_of(p)];
                    assert(all.contains(twin));
                    seqs::lemma_filter_contains(all, keep, twin);
                    let k = rest.places().index_of(twin);
                    assert(rest.order()[k] == p);
                }
            }
            assert(rest@ =~= self@.remove(path@));
        }
        *self = rest;
        removed
    }
}

/// A slash alone is the root, and a slash before a plain name leads to the entry of the
/// root with that name.
pub proof fn lemma_absolute(name: Seq<char>)
    requires
        plain_name(name),
    ensures
        parse_parts(seq!['/']) == seq![root_part()],
        parse_parts(seq!['/'] + name) == seq![root_part(), name],
{
    let empty = Seq::<char>::empty();
    let slash = empty.push('/');
    assert(slash =~= seq!['/']);
    assert(segments(empty) =~= seq![empty]);
    assert(slash.drop_last() =~= empty);
    assert(segments(slash) =~= seq![empty, empty]);
    reveal_with_fuel(kept_segments, 3);
    assert(parse_parts(slash) =~= seq![root_part()]);
    assert(name.contains(name[0]));
    lemma_parse_join(empty, name);
    lemma_join_plain(parse_parts(slash), name);
    assert(seq![root_part()].push(name) =~= seq![root_part(), name]);
}

/// The path that contains an entry is the one it was joined to, and it is written as it is
/// found: its text leads there.
pub proof fn lemma_parent_of_joined(base: Place, name: Seq<char>)
    requires
        plain_name(name),
        parse_parts(base.text) == base.parts,
    ensures
        ({
            let parent = parent_place(join_place(base, name));
            &&& parent is Some
            &&& parent->0.parts == base.parts
            &&& parse_parts(parent->0.text) == base.parts
            &&& join_place(base, name).parts.last() == name
        }),
{
    let joined = join_place(base, name);
    lemma_join_plain(base.parts, name);
    lemma_join_text(base.text, name);
    assert(joined.parts.drop_last() =~= base.parts);
    if name == root_part() {
        assert(name[0] == '/');
        assert(name.contains('/'));
    }
    let k = lemma_parent_begins(joined.text);
    lemma_shortest(joined.text, base.parts, 0, k);
}

/// The root, and the empty path, lie in no other.
pub proof fn lemma_no_parent(place: Place)
    ensures
        place.parts.len() == 0 || place.parts.last() == root_part() ==> parent_place(place) is None,
{
}

/// A name that stands behind a path leads to the entry with that name. A slash at the end
/// of a path, a second one in it and a dot between two slashes lead nowhere else.
pub proof fn lemma_spellings(stem: Seq<char>, name: Seq<char>)
    requires
        stem.len() > 0,
        plain_name(name),
    ensures
        parse_parts(name) == seq![name],
        parse_parts(stem + seq!['/']) == parse_parts(stem),
        parse_parts(stem + seq!['/'] + name) == parse_parts(stem).push(name),
        parse_parts(stem + seq!['/', '/'] + name) == parse_parts(stem).push(name),
        parse_parts(stem + seq!['/', '.', '/'] + name) == parse_parts(stem).push(name),
{
    let slashed = stem.push('/');
    let dotted = slashed.push('.');
    lemma_join_plain(Seq::empty(), name);
    assert(Seq::<Seq<char>>::empty().push(name) =~= seq![name]);
    assert(name.contains(name[0]));
    assert(stem + seq!['/'] =~= slashed);
    lemma_parse_slash(stem);
    let parts = parse_parts(stem);
    lemma_parse_join(stem, name);
    lemma_join_plain(parts, name);
    assert(stem + seq!['/', '/'] + name =~= slashed.push('/') + name);
    lemma_parse_slash(slashed);
    lemma_parse_join(slashed, name);
    assert(stem + seq!['/', '.', '/'] + name =~= dotted.push('/') + name);
    assert(dotted =~= slashed + seq!['.']);
    lemma_parse_join(stem, seq!['.']);
    lemma_segments_plain(seq!['.']);
    lemma_segments_nonempty(stem);
    if stem[0] != '/' {
        lemma_first_segment(stem);
        lemma_kept_first(segments(stem), segments(stem).len());
    }
    assert(parts.len() > 0);
    reveal_with_fuel(kept_segments, 2);
    assert(parse_parts(dotted) =~= parts);
    lemma_parse_slash(dotted);
    lemma_parse_join(dotted, name);
}

/// A path contains itself and what lies beneath it, and nothing else; two that contain
/// each other are the same.
pub proof fn lemma_contains(
    path: &NodePath,
    other: &NodePath,
    within: bool,
    around: bool,
    same: bool,
    rest: Seq<Seq<char>>,
)
    requires
        call_ensures(NodePath::contains, (path, other), within),
        call_ensures(NodePath::contains, (other, path), around),
        call_ensures(NodePath::same, (path, other), same),
    ensures
        other@ == path@ + rest ==> within,
        within ==> exists|rest: Seq<Seq<char>>| #[trigger] (path@ + rest) == other@,
        same <==> within && around,
        same <==> path@ == other@,
{
    if other@ == path@ + rest {
        assert(other@.take(path@.len() as int) =~= path@);
    }
    if within {
        assert(path@ + other@.skip(path@.len() as int) =~= other@);
    }
    if within && around {
        assert(other@.take(path@.len() as int) =~= other@);
    }
    if path@ == other@ {
        assert(path@.take(path@.len() as int) =~= path@);
    }
}

/// A path that a name was joined to is called by that name, and the name leads to it.
pub proof fn lemma_called(
    base: &NodePath,
    name: &str,
    path: NodePath,
    found: Option<&str>,
    next: Option<&str>,
)
    requires
        plain_name(name@),
        name@ != seq!['.', '.'],
        call_ensures(NodePath::join, (base, name), path),
        call_ensures(NodePath::file_name, (&path,), found),
        call_ensures(NodePath::next_toward, (base, &path), next),
    ensures
        found is Some && found->0@ == name@,
        next is Some && next->0@ == name@,
{
    lemma_join_plain(base@, name@);
    if name@ == root_part() {
        assert(name@[0] == '/');
        assert(name@.contains('/'));
    }
    assert(path@.take(base@.len() as int) =~= base@);
}

/// A path that was put into a set is in it, once, and none that was taken out; the others
/// stay as they were.
pub proof fn lemma_members(
    at_insert: &mut PathSet,
    at_remove: &mut PathSet,
    path: &NodePath,
    added: bool,
    removed: bool,
    other: Seq<Seq<char>>,
)
    requires
        call_ensures(PathSet::insert, (at_insert, path), added),
        call_ensures(PathSet::remove, (at_remove, path), removed),
    ensures
        final(at_insert)@.contains(path@),
        !final(at_remove)@.contains(path@),
        added <==> !old(at_insert)@.contains(path@),
        removed <==> old(at_remove)@.contains(path@),
        other != path@ ==> {
            &&& final(at_insert)@.contains(other) <==> old(at_insert)@.contains(other)
            &&& final(at_remove)@.contains(other) <==> old(at_remove)@.contains(other)
        },
{
}

} // verus!
