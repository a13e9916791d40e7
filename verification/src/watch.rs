use vstd::prelude::*;

use crate::error::Error;
use crate::pattern::{regex_match, Pattern};
use crate::workflow::{WatchEntry, Workflow};

verus! {

/// The canonical taxonomy of filesystem events that watch filters match
/// against.
pub enum EventKind {
    CreatedAny,
    CreatedFile,
    CreatedFolder,
    CreatedOther,
    ModifiedAny,
    ModifiedOther,
    ModifiedDataAny,
    ModifiedDataSize,
    ModifiedDataContent,
    ModifiedDataOther,
    ModifiedMetadataAny,
    ModifiedMetadataAccesstime,
    ModifiedMetadataWritetime,
    ModifiedMetadataPermissions,
    ModifiedMetadataOwnership,
    ModifiedMetadataExtended,
    ModifiedMetadataOther,
    ModifiedNameAny,
    ModifiedNameTo,
    ModifiedNameFrom,
    ModifiedNameBoth,
    ModifiedNameOther,
    RemovedAny,
    RemovedFile,
    RemovedFolder,
    RemovedOther,
    AccessAny,
    AccessRead,
    AccessOther,
    AccessOpenAny,
    AccessOpenExecute,
    AccessOpenRead,
    AccessOpenWrite,
    AccessOpenOther,
    AccessCloseAny,
    AccessCloseExecute,
    AccessCloseRead,
    AccessCloseWrite,
    AccessCloseOther,
    Any,
    Other,
}

/// The canonical string of an event kind.
pub open spec fn kind_str(k: EventKind) -> Seq<char> {
    match k {
        EventKind::CreatedAny => "created/any"@,
        EventKind::CreatedFile => "created/file"@,
        EventKind::CreatedFolder => "created/folder"@,
        EventKind::CreatedOther => "created/other"@,
        EventKind::ModifiedAny => "modified/any"@,
        EventKind::ModifiedOther => "modified/other"@,
        EventKind::ModifiedDataAny => "modified/data/any"@,
        EventKind::ModifiedDataSize => "modified/data/size"@,
        EventKind::ModifiedDataContent => "modified/data/content"@,
        EventKind::ModifiedDataOther => "modified/data/other"@,
        EventKind::ModifiedMetadataAny => "modified/metadata/any"@,
        EventKind::ModifiedMetadataAccesstime => "modified/metadata/accesstime"@,
        EventKind::ModifiedMetadataWritetime => "modified/metadata/writetime"@,
        EventKind::ModifiedMetadataPermissions => "modified/metadata/permissions"@,
        EventKind::ModifiedMetadataOwnership => "modified/metadata/ownership"@,
        EventKind::ModifiedMetadataExtended => "modified/metadata/extended"@,
        EventKind::ModifiedMetadataOther => "modified/metadata/other"@,
        EventKind::ModifiedNameAny => "modified/name/any"@,
        EventKind::ModifiedNameTo => "modified/name/to"@,
        EventKind::ModifiedNameFrom => "modified/name/from"@,
        EventKind::ModifiedNameBoth => "modified/name/both"@,
        EventKind::ModifiedNameOther => "modified/name/other"@,
        EventKind::RemovedAny => "removed/any"@,
        EventKind::RemovedFile => "removed/file"@,
        EventKind::RemovedFolder => "removed/folder"@,
        EventKind::RemovedOther => "removed/other"@,
        EventKind::AccessAny => "access/any"@,
        EventKind::AccessRead => "access/read"@,
        EventKind::AccessOther => "access/other"@,
        EventKind::AccessOpenAny => "access/open/any"@,
        EventKind::AccessOpenExecute => "access/open/execute"@,
        EventKind::AccessOpenRead => "access/open/read"@,
        EventKind::AccessOpenWrite => "access/open/write"@,
        EventKind::AccessOpenOther => "access/open/other"@,
        EventKind::AccessCloseAny => "access/close/any"@,
        EventKind::AccessCloseExecute => "access/close/execute"@,
        EventKind::AccessCloseRead => "access/close/read"@,
        EventKind::AccessCloseWrite => "access/close/write"@,
        EventKind::AccessCloseOther => "access/close/other"@,
        EventKind::Any => "any"@,
        EventKind::Other => "other"@,
    }
}

impl EventKind {
    /// Renders the canonical string of this kind.
    pub fn canonical(&self) -> (r: String)
        ensures
            r@ == kind_str(*self),
    {
        match self {
            EventKind::CreatedAny => "created/any".to_owned(),
            EventKind::CreatedFile => "created/file".to_owned(),
            EventKind::CreatedFolder => "created/folder".to_owned(),
            EventKind::CreatedOther => "created/other".to_owned(),
            EventKind::ModifiedAny => "modified/any".to_owned(),
            EventKind::ModifiedOther => "modified/other".to_owned(),
            EventKind::ModifiedDataAny => "modified/data/any".to_owned(),
            EventKind::ModifiedDataSize => "modified/data/size".to_owned(),
            EventKind::ModifiedDataContent => "modified/data/content".to_owned(),
            EventKind::ModifiedDataOther => "modified/data/other".to_owned(),
            EventKind::ModifiedMetadataAny => "modified/metadata/any".to_owned(),
            EventKind::ModifiedMetadataAccesstime => "modified/metadata/accesstime".to_owned(),
            EventKind::ModifiedMetadataWritetime => "modified/metadata/writetime".to_owned(),
            EventKind::ModifiedMetadataPermissions => "modified/metadata/permissions".to_owned(),
            EventKind::ModifiedMetadataOwnership => "modified/metadata/ownership".to_owned(),
            EventKind::ModifiedMetadataExtended => "modified/metadata/extended".to_owned(),
            EventKind::ModifiedMetadataOther => "modified/metadata/other".to_owned(),
            EventKind::ModifiedNameAny => "modified/name/any".to_owned(),
            EventKind::ModifiedNameTo => "modified/name/to".to_owned(),
            EventKind::ModifiedNameFrom => "modified/name/from".to_owned(),
            EventKind::ModifiedNameBoth => "modified/name/both".to_owned(),
            EventKind::ModifiedNameOther => "modified/name/other".to_owned(),
            EventKind::RemovedAny => "removed/any".to_owned(),
            EventKind::RemovedFile => "removed/file".to_owned(),
            EventKind::RemovedFolder => "removed/folder".to_owned(),
            EventKind::RemovedOther => "removed/other".to_owned(),
            EventKind::AccessAny => "access/any".to_owned(),
            EventKind::AccessRead => "access/read".to_owned(),
            EventKind::AccessOther => "access/other".to_owned(),
            EventKind::AccessOpenAny => "access/open/any".to_owned(),
            EventKind::AccessOpenExecute => "access/open/execute".to_owned(),
            EventKind::AccessOpenRead => "access/open/read".to_owned(),
            EventKind::AccessOpenWrite => "access/open/write".to_owned(),
            EventKind::AccessOpenOther => "access/open/other".to_owned(),
            EventKind::AccessCloseAny => "access/close/any".to_owned(),
            EventKind::AccessCloseExecute => "access/close/execute".to_owned(),
            EventKind::AccessCloseRead => "access/close/read".to_owned(),
            EventKind::AccessCloseWrite => "access/close/write".to_owned(),
            EventKind::AccessCloseOther => "access/close/other".to_owned(),
            EventKind::Any => "any".to_owned(),
            EventKind::Other => "other".to_owned(),
        }
    }
}

/// The text a watch filter is matched against: `"<kind>|<path>"`.
pub open spec fn event_text_spec(kind: EventKind, path: Seq<char>) -> Seq<char> {
    kind_str(kind) + seq!['|'] + path
}

/// Renders the filter text of one event.
pub fn event_text(kind: &EventKind, path: &str) -> (r: String)
    ensures
        r@ == event_text_spec(*kind, path@),
{
    let mut s = kind.canonical();
    proof {
        reveal_strlit("|");
    }
    s.append("|");
    s.append(path);
    proof {
        assert("|"@ =~= seq!['|']);
        assert(s@ =~= event_text_spec(*kind, path@));
    }
    s
}

impl Workflow {
    /// Looks a watch entry up by name.
    pub fn watch_entry<'a>(&'a self, name: &str) -> (r: Result<&'a WatchEntry, Error>)
        requires
            self.wf(),
        ensures
            r matches Ok(e) ==> self.watch_map().dom().contains(name@) && *e
                == self.watch_map()[name@],
            r matches Err(e) ==> (e matches Error::NotFound(_)) && !self.watch_map().dom().contains(
                name@,
            ),
    {
        match &self.watch {
            Some(entries) => match crate::assoc::assoc_get(entries, name) {
                Some(e) => Ok(e),
                None => {
                    let mut m = "no watch node named ".to_owned();
                    m.append(name);
                    m.append(" in config");
                    Err(Error::NotFound(m))
                },
            },
            None => Err(Error::NotFound("no watch node in config".to_owned())),
        }
    }
}

/// The reserved keys injected for each accepted event, ahead of the user
/// arguments so that they take precedence.
pub open spec fn event_args_spec(
    base: Seq<(String, String)>,
    args: Seq<(String, String)>,
    text: Seq<char>,
    kind: EventKind,
    path: Seq<char>,
) -> bool {
    &&& args.len() == base.len() + 3
    &&& args[0].0@ == "EVENT"@ && args[0].1@ == text
    &&& args[1].0@ == "EVENT_KIND"@ && args[1].1@ == kind_str(kind)
    &&& args[2].0@ == "EVENT_PATH"@ && args[2].1@ == path
    &&& args.skip(3) == base
}

/// Decides one filesystem event: applies the entry's filter to
/// `"<kind>|<path>"`, drops a matched event while a run is in flight
/// unless the entry queues, and otherwise yields the planner arguments
/// with the reserved event keys injected.
pub fn event_action(
    entry: &WatchEntry,
    pattern: &Pattern,
    busy: bool,
    kind: &EventKind,
    path: &str,
    base_args: &Vec<(String, String)>,
) -> (r: Result<Option<Vec<(String, String)>>, Error>)
    requires
        pattern@ == entry.filter@,
    ensures
        r matches Ok(Some(args)) ==> regex_match(
            entry.filter@,
            event_text_spec(*kind, path@),
        ) && (entry.queue || !busy) && event_args_spec(
            base_args@,
            args@,
            event_text_spec(*kind, path@),
            *kind,
            path@,
        ),
        r matches Ok(None) ==> !regex_match(entry.filter@, event_text_spec(*kind, path@)) || (
        !entry.queue && busy),
        r matches Err(e) ==> e matches Error::RegexError(_),
{
    let text = event_text(kind, path);
    let matched = match pattern.is_match(text.as_str()) {
        Ok(b) => b,
        Err(e) => {
            return Err(Error::RegexError(e));
        },
    };
    if !matched {
        return Ok(None);
    }
    if !entry.queue && busy {
        return Ok(None);
    }
    let mut args: Vec<(String, String)> = Vec::new();
    args.push(("EVENT".to_owned(), text));
    args.push(("EVENT_KIND".to_owned(), kind.canonical()));
    args.push(("EVENT_PATH".to_owned(), path.to_owned()));
    let n = base_args.len();
    let mut i: usize = 0;
    while i < n
        invariant
            n == base_args@.len(),
            i <= n,
            args@.len() == 3 + i,
            args@.skip(3) == base_args@.take(i as int),
            args@[0].0@ == "EVENT"@ && args@[0].1@ == event_text_spec(*kind, path@),
            args@[1].0@ == "EVENT_KIND"@ && args@[1].1@ == kind_str(*kind),
            args@[2].0@ == "EVENT_PATH"@ && args@[2].1@ == path@,
        decreases n - i,
    {
        let k = base_args[i].0.clone();
        let v = base_args[i].1.clone();
        let ghost args0 = args@;
        args.push((k, v));
        proof {
            assert(args@.skip(3) =~= args0.skip(3).push(base_args@[i as int]));
            assert(base_args@.take(i as int).push(base_args@[i as int]) =~= base_args@.take(
                i as int + 1,
            ));
        }
        i += 1;
    }
    proof {
        assert(base_args@.take(n as int) =~= base_args@);
    }
    Ok(Some(args))
}

} // verus!
