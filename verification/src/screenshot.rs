//! Taking screenshots of every view, one after the other.

use vstd::prelude::*;

use crate::text;
use crate::text::owned;

verus! {

/// How a scan is shown.
#[derive(Clone, Copy, Debug, PartialEq, Eq, Structural)]
pub enum ViewMode {
    Tree,
    Treemap,
}

#[derive(Clone, Copy, Debug, PartialEq, Eq, Structural)]
pub enum ScreenshotState {
    Idle,
    WaitingForView,
    /// Wait for some frames, so that rendering settles.
    WaitFrames(u8),
    Capturing,
    /// Wait for the picture.
    WaitingForEvent,
    /// Switch to the next view.
    NextView(ViewMode),
    /// Open the panel of file types.
    ShowCategories,
    Done,
}

/// What is shown in a frame.
#[derive(Clone, Copy, Debug, PartialEq, Eq, Structural)]
pub struct Scene {
    pub state: ScreenshotState,
    pub view: ViewMode,
    pub show_categories: bool,
}

/// What a frame does besides.
#[derive(Clone, Copy, Debug, PartialEq, Eq, Structural)]
pub struct FrameWork {
    pub repaint: bool,
    pub capture: bool,
    pub close: bool,
}

/// How many frames rendering is given to settle.
pub const SETTLE_FRAMES: u8 = 5;

/// The next scene, from whether a scan is running, whether there is a tree and
/// whether a picture has come.
pub open spec fn next_scene(scene: Scene, scanning: bool, has_tree: bool, got: bool) -> Scene {
    match scene.state {
        ScreenshotState::Idle => scene,
        ScreenshotState::WaitingForView => if scanning {
            scene
        } else {
            Scene { state: ScreenshotState::WaitFrames(SETTLE_FRAMES), ..scene }
        },
        ScreenshotState::WaitFrames(n) => if n == 0 {
            Scene { state: ScreenshotState::Capturing, ..scene }
        } else {
            Scene { state: ScreenshotState::WaitFrames((n - 1) as u8), ..scene }
        },
        ScreenshotState::Capturing => Scene { state: ScreenshotState::WaitingForEvent, ..scene },
        ScreenshotState::WaitingForEvent => if !got {
            scene
        } else if !has_tree || scene.view == ViewMode::Treemap {
            Scene { state: ScreenshotState::Done, ..scene }
        } else if !scene.show_categories {
            Scene { state: ScreenshotState::ShowCategories, ..scene }
        } else {
            Scene {
                state: ScreenshotState::NextView(ViewMode::Treemap),
                show_categories: false,
                ..scene
            }
        },
        ScreenshotState::ShowCategories => Scene {
            state: ScreenshotState::WaitFrames(SETTLE_FRAMES),
            show_categories: true,
            ..scene
        },
        ScreenshotState::NextView(view) => Scene {
            state: ScreenshotState::WaitFrames(SETTLE_FRAMES),
            view,
            ..scene
        },
        ScreenshotState::Done => Scene { state: ScreenshotState::Idle, ..scene },
    }
}

/// What a frame in this state does besides.
pub open spec fn frame_work(state: ScreenshotState) -> FrameWork {
    FrameWork {
        repaint: match state {
            ScreenshotState::Idle | ScreenshotState::WaitingForView | ScreenshotState::Done =>
                false,
            _ => true,
        },
        capture: state == ScreenshotState::Capturing,
        close: state == ScreenshotState::Done,
    }
}

/// One frame of the sequence.
pub fn advance(scene: Scene, scanning: bool, has_tree: bool, got: bool) -> (next: (
    Scene,
    FrameWork,
))
    ensures
        next.0 == next_scene(scene, scanning, has_tree, got),
        next.1 == frame_work(scene.state),
{
    let mut next: Scene = scene;
    let mut work = FrameWork { repaint: true, capture: false, close: false };
    match scene.state {
        ScreenshotState::Idle => {
            work.repaint = false;
        },
        ScreenshotState::WaitingForView => {
            work.repaint = false;
            if !scanning {
                next.state = ScreenshotState::WaitFrames(SETTLE_FRAMES);
            }
        },
        ScreenshotState::WaitFrames(n) => {
            next.state = if n == 0 {
                ScreenshotState::Capturing
            } else {
                ScreenshotState::WaitFrames(n - 1)
            };
        },
        ScreenshotState::Capturing => {
            work.capture = true;
            next.state = ScreenshotState::WaitingForEvent;
        },
        ScreenshotState::WaitingForEvent => {
            if got {
                if !has_tree || scene.view == ViewMode::Treemap {
                    next.state = ScreenshotState::Done;
                } else if !scene.show_categories {
                    next.state = ScreenshotState::ShowCategories;
                } else {
                    next.show_categories = false;
                    next.state = ScreenshotState::NextView(ViewMode::Treemap);
                }
            }
        },
        ScreenshotState::ShowCategories => {
            next.show_categories = true;
            next.state = ScreenshotState::WaitFrames(SETTLE_FRAMES);
        },
        ScreenshotState::NextView(view) => {
            next.view = view;
            next.state = ScreenshotState::WaitFrames(SETTLE_FRAMES);
        },
        ScreenshotState::Done => {
            work.repaint = false;
            work.close = true;
            next.state = ScreenshotState::Idle;
        },
    }
    (next, work)
}

/// What the picture of a scene is called.
pub open spec fn picture_label(scene: Scene, scanning: bool, has_tree: bool) -> Seq<char> {
    if !has_tree && !scanning {
        "home"@
    } else {
        match scene.view {
            ViewMode::Tree => if scene.show_categories {
                "tree_full"@
            } else {
                "tree"@
            },
            ViewMode::Treemap => "treemap"@,
        }
    }
}

/// The file for the picture of a scene.
pub fn picture_file(prefix: &str, scene: Scene, scanning: bool, has_tree: bool) -> (file: String)
    ensures
        file@ == prefix@ + "_"@ + picture_label(scene, scanning, has_tree) + ".png"@,
{
    let label: &str = if !has_tree && !scanning {
        "home"
    } else {
        match scene.view {
            ViewMode::Tree => if scene.show_categories {
                "tree_full"
            } else {
                "tree"
            },
            ViewMode::Treemap => "treemap",
        }
    };
    let mut file = owned(prefix);
    file.append("_");
    file.append(label);
    file.append(".png");
    file
}

/// How many frames are left at most, not counting those that wait for a scan
/// or for a picture.
pub open spec fn frames_left(scene: Scene) -> nat {
    let view = if scene.view == ViewMode::Treemap {
        0nat
    } else if scene.show_categories {
        1000nat
    } else {
        2000nat
    };
    match scene.state {
        ScreenshotState::Idle => 0,
        ScreenshotState::Done => 1,
        ScreenshotState::WaitingForEvent => 2 + view,
        ScreenshotState::Capturing => 3 + view,
        ScreenshotState::WaitFrames(n) => 4 + n as nat + view,
        ScreenshotState::WaitingForView => 300 + view,
        ScreenshotState::ShowCategories => 1500,
        ScreenshotState::NextView(next) => if next == ViewMode::Treemap {
            500
        } else {
            3000
        },
    }
}

/// The sequence comes to an end: every frame that does not wait for a scan or
/// for a picture brings it nearer.
pub proof fn lemma_sequence_ends(scene: Scene, scanning: bool, has_tree: bool, got: bool)
    requires
        scene.state != ScreenshotState::Idle,
        scene.state == ScreenshotState::WaitingForView ==> !scanning,
        scene.state == ScreenshotState::WaitingForEvent ==> got,
        scene.state matches ScreenshotState::NextView(next) ==> next == ViewMode::Treemap,
        scene.state == ScreenshotState::ShowCategories ==> scene.view == ViewMode::Tree,
    ensures
        frames_left(next_scene(scene, scanning, has_tree, got)) < frames_left(scene),
{
}

/// Pictures of different views have different names: the tree, the tree with its panel, and
/// the treemap.
pub proof fn lemma_pictures(scene: Scene, other: Scene, scanning: bool)
    requires
        picture_label(scene, scanning, true) == picture_label(other, scanning, true),
    ensures
        scene.view == other.view,
        scene.view == ViewMode::Tree ==> scene.show_categories == other.show_categories,
        picture_label(scene, scanning, true) != picture_label(scene, false, false),
{
    reveal_strlit("home");
    reveal_strlit("tree_full");
    reveal_strlit("tree");
    reveal_strlit("treemap");
    assert("home"@[0] == 'h' && "tree"@[0] == 't');
    assert("tree_full"@.len() == 9 && "tree"@.len() == 4 && "treemap"@.len() == 7);
}

/// A picture is taken only where rendering was given time to settle, and after each one the
/// sequence waits for it; of a tree it then opens the panel, then shows the treemap, and
/// then closes.
pub proof fn lemma_sequence(scene: Scene, scanning: bool, has_tree: bool, got: bool)
    ensures
        ({
            let next = next_scene(scene, scanning, has_tree, got);
            &&& frame_work(scene.state).capture <==> scene.state == ScreenshotState::Capturing
            &&& frame_work(scene.state).close <==> scene.state == ScreenshotState::Done
            &&& next.state == ScreenshotState::Capturing <==> scene.state
                == ScreenshotState::WaitFrames(0)
            &&& scene.state == ScreenshotState::Capturing ==> next.state
                == ScreenshotState::WaitingForEvent
            &&& scene.state == ScreenshotState::WaitingForEvent && !got ==> next == scene
            &&& scene.state == ScreenshotState::WaitingForEvent && got && has_tree && scene.view
                == ViewMode::Tree ==> {
                &&& !scene.show_categories ==> next.state == ScreenshotState::ShowCategories
                &&& scene.show_categories ==> next.state == ScreenshotState::NextView(
                    ViewMode::Treemap,
                )
            }
            &&& scene.state == ScreenshotState::WaitingForEvent && got && (!has_tree || scene.view
                == ViewMode::Treemap) ==> next.state == ScreenshotState::Done
            &&& scene.state == ScreenshotState::ShowCategories ==> next.show_categories
            &&& scene.state == ScreenshotState::NextView(ViewMode::Treemap) ==> next.view
                == ViewMode::Treemap
            &&& scene.state == ScreenshotState::WaitingForView && scanning ==> next == scene
        }),
{
}

/// A picture is named after the prefix, and is a PNG file.
pub proof fn lemma_picture_file(
    prefix: &str,
    scene: Scene,
    scanning: bool,
    has_tree: bool,
    file: String,
)
    requires
        call_ensures(picture_file, (prefix, scene, scanning, has_tree), file),
    ensures
        text::has_prefix(file@, prefix@ + "_"@),
        text::has_suffix(file@, ".png"@),
{
    let head = prefix@ + "_"@;
    assert(file@.take(head.len() as int) =~= head);
    assert(file@.skip(file@.len() - ".png"@.len()) =~= ".png"@);
}

} // verus!
