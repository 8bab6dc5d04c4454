//! What the panel of suggestions shows and asks for.

use vstd::prelude::*;

use crate::path::NodePath;
use crate::suggestions::SuggestionGroup;
use crate::text;
use crate::text::{owned, push_decimal};

verus! {

/// Actions produced by the suggestions panel.
pub enum SuggestionAction {
    ToggleGroup(usize),
    TrashItem(NodePath),
    TrashGroup(usize),
}

/// How many items of a group are listed.
pub const MAX_SHOWN: usize = 20;

/// The longest path that is shown whole, in bytes.
pub const PATH_LENGTH: usize = 60;

/// How many bytes of a longer path are shown.
pub const PATH_END: usize = 57;

/// The number of items in all groups.
pub open spec fn items_in(groups: Seq<SuggestionGroup>) -> nat
    decreases groups.len(),
{
    if groups.len() == 0 {
        0
    } else {
        items_in(groups.drop_last()) + groups.last().items@.len()
    }
}

proof fn lemma_items_prefix(groups: Seq<SuggestionGroup>, n: int)
    requires
        0 <= n <= groups.len(),
    ensures
        items_in(groups.take(n)) <= items_in(groups),
    decreases groups.len() - n,
{
    if n < groups.len() {
        assert(groups.take(n + 1).drop_last() =~= groups.take(n));
        lemma_items_prefix(groups, n + 1);
    } else {
        assert(groups.take(n) =~= groups);
    }
}

/// The line with the numbers of items and groups.
pub fn counts_line(groups: &Vec<SuggestionGroup>) -> (line: String)
    requires
        items_in(groups@) <= u64::MAX,
    ensures
        line@ == text::decimal(items_in(groups@)) + " items across "@ + text::decimal(
            groups@.len(),
        ) + " categories"@,
{
    let mut items: u64 = 0;
    let mut i: usize = 0;
    assert(groups@.take(0) =~= Seq::<SuggestionGroup>::empty());
    while i < groups.len()
        invariant
            i <= groups@.len(),
            items_in(groups@) <= u64::MAX,
            items == items_in(groups@.take(i as int)),
        decreases groups@.len() - i,
    {
        proof {
            assert(groups@.take(i + 1).drop_last() =~= groups@.take(i as int));
            lemma_items_prefix(groups@, i + 1);
        }
        items += groups[i].items.len() as u64;
        i += 1;
    }
    assert(groups@.take(i as int) =~= groups@);
    let mut line = String::new();
    push_decimal(&mut line, items);
    line.append(" items across ");
    push_decimal(&mut line, groups.len() as u64);
    line.append(" categories");
    assert(line@ =~= text::decimal(items_in(groups@)) + " items across "@ + text::decimal(
        groups@.len(),
    ) + " categories"@);
    line
}

/// How many of `items` are listed.
pub fn shown_items(items: usize) -> (shown: usize)
    ensures
        shown == (if items < MAX_SHOWN {
            items
        } else {
            MAX_SHOWN
        }),
{
    if items < MAX_SHOWN {
        items
    } else {
        MAX_SHOWN
    }
}

/// The line for the items that are not listed; None where all are.
pub fn more_line(items: usize) -> (line: Option<String>)
    ensures
        match line {
            Some(line) => items > MAX_SHOWN && line@ == "... and "@ + text::decimal(
                (items - MAX_SHOWN) as nat,
            ) + " more items"@,
            None => items <= MAX_SHOWN,
        },
{
    if items <= MAX_SHOWN {
        return None;
    }
    let mut line = owned("... and ");
    push_decimal(&mut line, (items - MAX_SHOWN) as u64);
    line.append(" more items");
    Some(line)
}

/// Whether a path is shown whole, or can be cut where it has to be.
pub open spec fn can_shorten(path: Seq<char>) -> bool {
    let bytes = vstd::utf8::encode_utf8(path);
    bytes.len() <= PATH_LENGTH || vstd::utf8::is_char_boundary(bytes, bytes.len() - PATH_END)
}

/// Whether `shown` is the path, or an ellipsis and the end of a long one.
pub open spec fn shortened(path: Seq<char>, shown: Seq<char>) -> bool {
    let bytes = vstd::utf8::encode_utf8(path);
    if bytes.len() > PATH_LENGTH {
        exists|end: Seq<char>| #[trigger]
            vstd::utf8::encode_utf8(end) == bytes.skip(bytes.len() - PATH_END) && shown == "..."@
                + end
    } else {
        shown == path
    }
}

/// A path as it is listed.
pub fn shorten_path(path: &str) -> (shown: String)
    requires
        can_shorten(path@),
    ensures
        shortened(path@, shown@),
{
    let length: usize = path.as_bytes().len();
    if length <= PATH_LENGTH {
        return owned(path);
    }
    let (start, end) = path.split_at(length - PATH_END);
    let mut shown = owned("...");
    shown.append(end);
    proof {
        let bytes = vstd::utf8::encode_utf8(path@);
        assert(vstd::utf8::encode_utf8(end@) =~= bytes.skip(bytes.len() - PATH_END));
    }
    shown
}

/// What the button below a group says.
pub fn toggle_label(expanded: bool) -> (label: &'static str)
    ensures
        label@ == (if expanded {
            "Hide details \u{25B2}"@
        } else {
            "Show details \u{25BC}"@
        }),
{
    if expanded {
        "Hide details \u{25B2}"
    } else {
        "Show details \u{25BC}"
    }
}

/// What is listed of a group and what the line below says is missing are all of it.
pub proof fn lemma_items_shown(items: usize, shown: usize, more: Option<String>)
    requires
        call_ensures(shown_items, (items,), shown),
        call_ensures(more_line, (items,), more),
    ensures
        shown <= items,
        shown <= 20,
        more is None <==> shown == items,
        more is Some ==> more->0@ == "... and "@ + text::decimal((items - shown) as nat)
            + " more items"@,
{
}

/// The items of all groups are those of the first ones and those of the last.
pub proof fn lemma_items_in(groups: Seq<SuggestionGroup>, group: SuggestionGroup)
    ensures
        items_in(groups.push(group)) == items_in(groups) + group.items@.len(),
        items_in(Seq::empty()) == 0,
{
    assert(groups.push(group).drop_last() =~= groups);
}

/// The label of the details says what a click does.
pub proof fn lemma_toggle_label(expanded: bool, label: &str)
    requires
        call_ensures(toggle_label, (expanded,), label),
    ensures
        text::has_prefix(label@, "Hide"@) <==> expanded,
        text::has_prefix(label@, "Show"@) <==> !expanded,
{
    reveal_strlit("Hide");
    reveal_strlit("Show");
    reveal_strlit("Hide details \u{25B2}");
    reveal_strlit("Show details \u{25BC}");
    assert(label@.take(4)[0] == label@[0]);
    if expanded {
        assert(label@.take(4) =~= "Hide"@);
    } else {
        assert(label@.take(4) =~= "Show"@);
    }
}

/// One more group adds its items, and one more category.
pub proof fn lemma_counts(
    groups: &Vec<SuggestionGroup>,
    line: String,
    items: nat,
)
    requires
        groups@.len() > 0,
        items == items_in(groups@.drop_last()),
        items_in(groups@) <= u64::MAX,
        call_ensures(counts_line, (groups,), line),
    ensures
        line@ == text::decimal(items + groups@.last().items@.len()) + " items across "@
            + text::decimal(groups@.len()) + " categories"@,
        items_in(Seq::<SuggestionGroup>::empty()) == 0,
{
}

} // verus!
