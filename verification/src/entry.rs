//! One record of the composite map.

use vstd::prelude::*;

verus! {

/// One redirection record: the object named by `composite_name` lives in the
/// container `filename`, `size` bytes from byte `offset`.
#[derive(Debug, PartialEq, Eq)]
pub struct CompositeEntry {
    /// The container file that currently serves the object.
    pub filename: String,
    /// The logical path of the object inside the game.
    pub object_path: String,
    /// The stable identifier of the record, unique in a map.
    pub composite_name: String,
    /// Where the object starts in the container.
    pub offset: usize,
    /// How many bytes of the container the object takes.
    pub size: usize,
}

/// The mathematical value of a [`CompositeEntry`].
pub struct EntryView {
    pub filename: Seq<char>,
    pub object_path: Seq<char>,
    pub composite_name: Seq<char>,
    pub offset: usize,
    pub size: usize,
}

impl View for CompositeEntry {
    type V = EntryView;

    open spec fn view(&self) -> EntryView {
        EntryView {
            filename: self.filename@,
            object_path: self.object_path@,
            composite_name: self.composite_name@,
            offset: self.offset,
            size: self.size,
        }
    }
}

impl Clone for CompositeEntry {
    fn clone(&self) -> (copy: Self)
        ensures
            copy@ == self@,
    {
        CompositeEntry {
            filename: self.filename.clone(),
            object_path: self.object_path.clone(),
            composite_name: self.composite_name.clone(),
            offset: self.offset,
            size: self.size,
        }
    }
}

impl Default for CompositeEntry {
    fn default() -> (entry: Self)
        ensures
            entry@ == (EntryView {
                filename: Seq::empty(),
                object_path: Seq::empty(),
                composite_name: Seq::empty(),
                offset: 0,
                size: 0,
            }),
    {
        CompositeEntry {
            filename: String::new(),
            object_path: String::new(),
            composite_name: String::new(),
            offset: 0,
            size: 0,
        }
    }
}

/// The values of a sequence of entries.
pub open spec fn entry_views(entries: Seq<CompositeEntry>) -> Seq<EntryView> {
    entries.map_values(|e: CompositeEntry| e@)
}

} // verus!
