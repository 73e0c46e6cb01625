//! The speedscope file format: the document, its profiles, their events, and the
//! frame table the events point into, each with its mathematical view.

use vstd::prelude::*;
use std::borrow::Cow;

verus! {

/// Text that is either borrowed for the whole run of the program or owned.
pub type StrCow = Cow<'static, str>;

/// A whole speedscope document.
#[derive(Debug, PartialEq)]
pub struct SpeedscopeFile {
    pub schema: &'static str,
    pub profiles: Vec<Profile>,
    pub shared: Shared,
    pub active_profile_index: Option<u64>,
    pub exporter: Option<String>,
    pub name: Option<String>,
}

/// One profile of a document: a list of weighted stack samples, or a list of
/// open and close events in the order in which they happened.
#[derive(Debug, PartialEq)]
pub enum Profile {
    Sampled {
        name: StrCow,
        unit: ValueUnit,
        start_value: u64,
        end_value: u64,
        samples: Vec<Vec<usize>>,
        weights: Vec<u64>,
    },
    Evented {
        name: StrCow,
        unit: ValueUnit,
        start_value: u64,
        end_value: u64,
        events: Vec<Event>,
    },
}

/// A frame was entered or left at the time `at`; `frame` is the frame's place
/// in the document's frame table.
#[derive(Debug, PartialEq)]
pub struct Event {
    pub event_type: EventType,
    pub at: u64,
    pub frame: usize,
}

#[derive(Debug, PartialEq)]
pub enum EventType {
    OpenFrame,
    CloseFrame,
}

/// What all profiles of a document have in common: the frame table.
#[derive(Debug, PartialEq)]
pub struct Shared {
    pub frames: Vec<Frame>,
}

/// An entry of the frame table: a name, and optionally a place in a source file.
#[derive(Debug, PartialEq, Eq, Hash)]
pub struct Frame {
    pub name: StrCow,
    pub file: Option<String>,
    pub line: Option<u32>,
    pub col: Option<u32>,
}

/// The unit in which a profile's values are measured.
#[derive(Debug, PartialEq)]
pub enum ValueUnit {
    Bytes,
    Microseconds,
    Milliseconds,
    Nanoseconds,
    /// The values have no unit.
    Unitless,
    Seconds,
}

/// A frame as a mathematical value.
pub struct FrameView {
    pub name: Seq<char>,
    pub file: Option<Seq<char>>,
    pub line: Option<u32>,
    pub col: Option<u32>,
}

/// A profile as a mathematical value.
pub enum ProfileView {
    Sampled {
        name: Seq<char>,
        unit: ValueUnit,
        start_value: u64,
        end_value: u64,
        samples: Seq<Seq<usize>>,
        weights: Seq<u64>,
    },
    Evented {
        name: Seq<char>,
        unit: ValueUnit,
        start_value: u64,
        end_value: u64,
        events: Seq<Event>,
    },
}

/// A document as a mathematical value.
pub struct FileView {
    pub schema: Seq<char>,
    pub profiles: Seq<ProfileView>,
    pub frames: Seq<FrameView>,
    pub active_profile_index: Option<u64>,
    pub exporter: Option<Seq<char>>,
    pub name: Option<Seq<char>>,
}

/// The view of a text that may be absent.
pub open spec fn text_view(text: Option<String>) -> Option<Seq<char>> {
    match text {
        Some(t) => Some(t@),
        None => None,
    }
}

impl FrameView {
    /// The frame that carries a name and no place in a source file.
    pub open spec fn named(name: Seq<char>) -> FrameView {
        FrameView { name, file: None, line: None, col: None }
    }
}

impl View for Frame {
    type V = FrameView;

    open spec fn view(&self) -> FrameView {
        FrameView {
            name: self.name@,
            file: text_view(self.file),
            line: self.line,
            col: self.col,
        }
    }
}

impl View for Shared {
    type V = Seq<FrameView>;

    open spec fn view(&self) -> Seq<FrameView> {
        self.frames@.map_values(|f: Frame| f@)
    }
}

impl View for Profile {
    type V = ProfileView;

    open spec fn view(&self) -> ProfileView {
        match *self {
            Profile::Sampled { name, unit, start_value, end_value, samples, weights } => {
                ProfileView::Sampled {
                    name: name@,
                    unit,
                    start_value,
                    end_value,
                    samples: samples@.map_values(|s: Vec<usize>| s@),
                    weights: weights@,
                }
            },
            Profile::Evented { name, unit, start_value, end_value, events } => {
                ProfileView::Evented {
                    name: name@,
                    unit,
                    start_value,
                    end_value,
                    events: events@,
                }
            },
        }
    }
}

impl View for SpeedscopeFile {
    type V = FileView;

    open spec fn view(&self) -> FileView {
        FileView {
            schema: self.schema@,
            profiles: self.profiles@.map_values(|p: Profile| p@),
            frames: self.shared@,
            active_profile_index: self.active_profile_index,
            exporter: text_view(self.exporter),
            name: text_view(self.name),
        }
    }
}

impl Frame {
    /// A frame that is known by its name alone.
    #[inline]
    pub fn new(name: StrCow) -> (frame: Frame)
        ensures
            frame == (Frame { name, file: None, line: None, col: None }),
            frame@ == FrameView::named(name@),
    {
        Frame { name, file: None, line: None, col: None }
    }
}

impl Clone for Frame {
    fn clone(&self) -> (copy: Frame)
        ensures
            copy == *self,
    {
        let file = match &self.file {
            Some(f) => Some(f.clone()),
            None => None,
        };
        Frame { name: clone_name(&self.name), file, line: self.line, col: self.col }
    }
}

/// The text of a name, without copying it.
pub fn name_str<'a>(name: &'a StrCow) -> (text: &'a str)
    ensures
        text@ == name@,
{
    match name {
        Cow::Borrowed(b) => *b,
        Cow::Owned(o) => o.as_str(),
    }
}

/// A copy of a name; a borrowed name stays borrowed.
pub fn clone_name(name: &StrCow) -> (copy: StrCow)
    ensures
        copy == *name,
{
    match name {
        Cow::Borrowed(b) => Cow::Borrowed(*b),
        Cow::Owned(o) => Cow::Owned(o.clone()),
    }
}

} // verus!
