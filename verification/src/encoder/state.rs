//! The state of a directory that is being written.

use vstd::prelude::*;

use crate::encoder::model::{EncodeError, StateView};
use crate::format::GoodbyeItem;

verus! {

pub struct EncoderState {
    /// Goodbye items for this directory, excluding the tail.
    pub items: Vec<GoodbyeItem>,

    /// User caused error conditions.
    pub encode_error: Option<EncodeError>,

    /// Offset of this directory's ENTRY.
    pub entry_offset: u64,

    /// Offset to this directory's first FILENAME.
    pub files_offset: u64,

    /// If this is a subdirectory, this points to the this directory's FILENAME.
    pub file_offset: Option<u64>,

    /// If this is a subdirectory, this contains this directory's hash for the goodbye item.
    pub file_hash: u64,

    /// We need to keep track how much we have written to get offsets.
    pub write_position: u64,

    /// Track the bytes written to the payload writer
    pub payload_write_position: u64,
}

impl View for EncoderState {
    type V = StateView;

    open spec fn view(&self) -> StateView {
        StateView {
            items: self.items@,
            encode_error: self.encode_error,
            entry_offset: self.entry_offset,
            files_offset: self.files_offset,
            file_offset: self.file_offset,
            file_hash: self.file_hash,
            write_position: self.write_position,
            payload_write_position: self.payload_write_position,
        }
    }
}

/// The contents of a stack of states.
pub open spec fn state_views(states: Seq<EncoderState>) -> Seq<StateView> {
    states.map_values(|s: EncoderState| s@)
}

impl std::default::Default for EncoderState {
    fn default() -> (r: Self)
        ensures
            r@ == StateView::initial(),
    {
        EncoderState {
            items: Vec::new(),
            encode_error: None,
            entry_offset: 0,
            files_offset: 0,
            file_offset: None,
            file_hash: 0,
            write_position: 0,
            payload_write_position: 0,
        }
    }
}

impl EncoderState {
    pub fn position(&self) -> (r: u64)
        ensures
            r == self@.write_position,
    {
        self.write_position
    }

    pub fn payload_position(&self) -> (r: u64)
        ensures
            r == self@.payload_write_position,
    {
        self.payload_write_position
    }

    pub fn merge_error(&mut self, error: Option<EncodeError>)
        ensures
            final(self)@ == old(self)@.with_error(error),
    {
        // one error is enough:
        if self.encode_error.is_none() {
            self.encode_error = error;
        }
    }

    pub fn add_error(&mut self, error: EncodeError)
        ensures
            final(self)@ == old(self)@.with_error(Some(error)),
    {
        self.merge_error(Some(error));
    }

    /// Take out the error.
    pub fn finish(&mut self) -> (r: Option<EncodeError>)
        ensures
            r == old(self)@.encode_error,
            final(self)@ == (StateView { encode_error: None, ..old(self)@ }),
    {
        let error = self.encode_error;
        self.encode_error = None;
        error
    }
}

} // verus!
