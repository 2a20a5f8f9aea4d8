//! When the file watcher refreshes the index: on a change to a Markdown
//! file, at most once per debounce interval, and a change that comes
//! within the interval is kept pending until a later refresh.
use vstd::prelude::*;
use std::path::Path;

verus! {

/// The kind of a file-system event, as far as the watcher cares.
pub enum ChangeKind {
    Create,
    Modify,
    Remove,
    Other,
}

/// `Path::extension`: the part of the file name after its last dot, if any.
pub uninterp spec fn path_extension_of(p: Seq<char>) -> Option<Seq<char>>;

/// `Path::new(p).extension()`, as text.
#[verifier::external_body]
pub fn path_extension(p: &str) -> (r: Option<String>)
    ensures
        match r {
            Some(e) => path_extension_of(p@) == Some(e@),
            None => path_extension_of(p@) is None,
        },
{
    Path::new(p).extension().map(|e| e.to_string_lossy().into_owned())
}

/// Does the path name a Markdown file (extension `md`)?
pub fn is_markdown_path(p: &str) -> (r: bool)
    ensures
        r == (path_extension_of(p@) == Some("md"@)),
{
    match path_extension(p) {
        Some(e) => {
            let md = "md".to_owned();
            e == md
        },
        None => false,
    }
}

/// A created, modified or removed Markdown file calls for a refresh.
pub open spec fn triggers_refresh(kind: ChangeKind, paths: Seq<Seq<char>>) -> bool {
    !(kind is Other) && exists|i: int| 0 <= i < paths.len() && path_extension_of(#[trigger] paths[i]) == Some("md"@)
}

/// A created, modified or removed Markdown file calls for a refresh.
pub fn event_triggers_refresh(kind: ChangeKind, paths: &Vec<String>) -> (r: bool)
    ensures
        r == triggers_refresh(kind, paths.deep_view()),
{
    let is_change = match kind {
        ChangeKind::Other => false,
        _ => true,
    };
    if !is_change {
        return false;
    }
    let mut i: usize = 0;
    while i < paths.len()
        invariant
            i <= paths.len(),
            is_change == !(kind is Other),
            is_change,
            forall|j: int| 0 <= j < i ==> path_extension_of(#[trigger] paths@[j]@) != Some("md"@),
        decreases paths.len() - i,
    {
        if is_markdown_path(paths[i].as_str()) {
            proof {
                assert(path_extension_of(paths.deep_view()[i as int]) == Some("md"@));
            }
            return true;
        }
        proof {
            assert(paths.deep_view()[i as int] == paths@[i as int]@);
        }
        i += 1;
    }
    proof {
        assert forall|j: int| 0 <= j < paths.len() implies path_extension_of(#[trigger] paths.deep_view()[j]) != Some("md"@) by {
            assert(paths.deep_view()[j] == paths@[j]@);
        }
    }
    false
}

/// The debounce interval of the watcher, in milliseconds.
pub const REFRESH_INTERVAL_MS: u128 = 500;

/// A refresh is due when the interval has passed since the last one.
pub fn refresh_due(elapsed_ms: u128) -> (r: bool)
    ensures
        r == (elapsed_ms >= REFRESH_INTERVAL_MS),
{
    elapsed_ms >= REFRESH_INTERVAL_MS
}

/// What reaches the watcher's loop: a file-system event, or a tick of its
/// timer when no event came for an interval.
pub enum WatchEvent {
    Change { kind: ChangeKind, paths: Vec<String> },
    Tick,
}

/// One step of the watcher: with a change `pending` (or one that `change`
/// brings), it refreshes when the interval has passed since the last
/// refresh (`elapsed_ms`), and else keeps the change pending. The result is
/// (pending afterwards, refresh now).
pub open spec fn watch_next(pending: bool, elapsed_ms: int, change: bool) -> (bool, bool) {
    let wanted = pending || change;
    let refresh = wanted && elapsed_ms >= REFRESH_INTERVAL_MS;
    (wanted && !refresh, refresh)
}

/// Does the event bring a change that calls for a refresh?
pub open spec fn event_brings_change(e: WatchEvent) -> bool {
    match e {
        WatchEvent::Change { kind, paths } => triggers_refresh(kind, paths.deep_view()),
        WatchEvent::Tick => false,
    }
}

/// The watcher's decision on one event (see [`watch_next`]).
pub fn watch_step(pending: bool, elapsed_ms: u128, event: WatchEvent) -> (r: (bool, bool))
    ensures
        r == watch_next(pending, elapsed_ms as int, event_brings_change(event)),
{
    let change = match &event {
        WatchEvent::Change { kind, paths } => {
            let k = match kind {
                ChangeKind::Create => ChangeKind::Create,
                ChangeKind::Modify => ChangeKind::Modify,
                ChangeKind::Remove => ChangeKind::Remove,
                ChangeKind::Other => ChangeKind::Other,
            };
            event_triggers_refresh(k, paths)
        },
        WatchEvent::Tick => false,
    };
    let wanted = pending || change;
    let refresh = wanted && refresh_due(elapsed_ms);
    (wanted && !refresh, refresh)
}

/// No Markdown change is lost: after any step, a change that was pending
/// or that the step brought is either refreshed now or still pending.
pub proof fn lemma_change_is_kept(pending: bool, elapsed_ms: int, change: bool)
    requires
        pending || change,
    ensures
        watch_next(pending, elapsed_ms, change).0 || watch_next(pending, elapsed_ms, change).1,
{
}

/// A pending change is refreshed at the first step (a tick or any event)
/// that comes once the interval has passed since the last refresh.
pub proof fn lemma_pending_is_refreshed(elapsed_ms: int, change: bool)
    requires
        elapsed_ms >= REFRESH_INTERVAL_MS,
    ensures
        watch_next(true, elapsed_ms, change) == (false, true),
{
}

/// The watcher refreshes only for a change, and only once the interval has
/// passed since the last refresh.
pub proof fn lemma_refresh_only_when_due(pending: bool, elapsed_ms: int, change: bool)
    requires
        watch_next(pending, elapsed_ms, change).1,
    ensures
        pending || change,
        elapsed_ms >= REFRESH_INTERVAL_MS,
{
}

} // verus!
