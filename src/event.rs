//! Change events of a watched file, as the watch layer reports them and as
//! the tail pipeline consumes them.
use vstd::prelude::*;

verus! {

/// What happened to the watched file, reduced to what the pipeline acts on.
#[derive(Clone, Copy, Debug, PartialEq, Eq, Structural)]
pub enum FileEvent {
    /// At least one byte may have been appended.
    Modify,
    /// The file is gone: the sequence of lines ends.
    Delete,
    /// The watch itself failed: the sequence of lines ends with an error.
    Error,
}

/// A notice as the native (debouncing) watch layer delivers it. The path that
/// each notice carries is always the watched one and is left out.
#[derive(Clone, Copy, Debug, PartialEq, Eq, Structural)]
pub enum NativeEvent {
    /// A write was noticed; a `Write` follows once the file is quiet.
    NoticeWrite,
    /// A remove or rename was noticed; the file may still be open elsewhere.
    NoticeRemove,
    Create,
    Write,
    Chmod,
    /// The file has been removed.
    Remove,
    Rename,
    Rescan,
    /// The watch layer reported a failure.
    Error,
}

/// The event that a native notice stands for. Only a settled removal ends
/// the sequence; an early removal notice is treated as a possible write, since
/// the last bytes may still be readable.
pub open spec fn classify(n: NativeEvent) -> FileEvent {
    match n {
        NativeEvent::Remove => FileEvent::Delete,
        NativeEvent::Error => FileEvent::Error,
        _ => FileEvent::Modify,
    }
}

impl FileEvent {
    /// Whether this event ends the sequence of lines.
    pub open spec fn spec_is_terminal(self) -> bool {
        self != FileEvent::Modify
    }

    pub fn is_terminal(&self) -> (r: bool)
        ensures
            r == self.spec_is_terminal(),
    {
        !matches!(self, FileEvent::Modify)
    }
}

impl From<NativeEvent> for FileEvent {
    fn from(n: NativeEvent) -> (r: FileEvent)
        ensures
            r == classify(n),
    {
        match n {
            NativeEvent::Remove => FileEvent::Delete,
            NativeEvent::Error => FileEvent::Error,
            _ => FileEvent::Modify,
        }
    }
}

impl vstd::std_specs::convert::FromSpecImpl<NativeEvent> for FileEvent {
    open spec fn obeys_from_spec() -> bool {
        true
    }

    open spec fn from_spec(n: NativeEvent) -> FileEvent {
        classify(n)
    }
}

} // verus!
