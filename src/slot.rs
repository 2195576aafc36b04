use vstd::prelude::*;
use crate::codec::format::{decodes_as, no_value_at};
use crate::codec::{decode, DecodeError};
use crate::digest::{crc32_of, Crc32};
use crate::value::Value;

verus! {

/// A file that was read and decoded: its path, its bytes, their checksum and
/// the value decoded from them.
#[derive(Debug)]
pub struct LoadedFile {
    pub path: String,
    pub data: Vec<u8>,
    pub crc32: Crc32,
    pub parsed: Value,
}

impl LoadedFile {
    /// The record of the bytes `data` read from `path`: their checksum, and
    /// the value at their front.
    pub fn from_bytes(path: String, data: Vec<u8>) -> (r: Result<LoadedFile, DecodeError>)
        ensures
            match r {
                Ok(f) => f.path == path && f.data == data && f.crc32.result == crc32_of(data@)
                    && decodes_as(data@, f.parsed) is Some,
                Err(_) => no_value_at(data@),
            },
    {
        let crc32 = Crc32::calculate_hash_of(data.as_slice());
        match decode(data.as_slice()) {
            Ok(parsed) => Ok(LoadedFile { path, data, crc32, parsed }),
            Err(e) => Err(e),
        }
    }
}

/// Why a slot failed to load its file: the file could not be read (with the
/// reader's message), or its bytes could not be decoded.
#[derive(Debug)]
pub enum LoadError {
    Io(String),
    Decode(DecodeError),
}

/// Where a slot stands: no file; waiting for the bytes of a path, still
/// holding the file that was loaded before, if any; a loaded file; or a failed
/// load of a path, with its reason.
#[derive(Debug)]
pub enum SlotState {
    Empty,
    Loading(String, Option<LoadedFile>),
    Loaded(LoadedFile),
    Failed(String, LoadError),
}

/// One of the two file slots: the path the user bound to it, and its state.
#[derive(Debug)]
pub struct Slot {
    pub bound: Option<String>,
    pub state: SlotState,
}

/// The loaded file that a state holds: the file of a loaded slot, or the one
/// a loading slot keeps until its load ends.
pub open spec fn record_of(st: SlotState) -> Option<LoadedFile> {
    match st {
        SlotState::Loaded(f) => Some(f),
        SlotState::Loading(_, prev) => prev,
        _ => None,
    }
}

/// The slot after a path is chosen for it: a load of that path begins, and
/// the file loaded so far stays until that load ends.
pub open spec fn set_path_of(s: Slot, p: String) -> Slot {
    Slot { bound: Some(p), state: SlotState::Loading(p, record_of(s.state)) }
}

/// The slot after an unload: no path, no file.
pub open spec fn unload_of(s: Slot) -> Slot {
    Slot { bound: None, state: SlotState::Empty }
}

/// The slot after a reload: a loaded or failed slot with a bound path reads
/// that path again (a loaded file stays until the new load ends); any other
/// slot is left as it is.
pub open spec fn reload_of(s: Slot) -> Slot {
    match s.bound {
        Some(p) => match s.state {
            SlotState::Loaded(f) => Slot { bound: Some(p), state: SlotState::Loading(p, Some(f)) },
            SlotState::Failed(_, _) => Slot { bound: Some(p), state: SlotState::Loading(p, None) },
            _ => s,
        },
        None => s,
    }
}

/// The path that a state is about: the one being loaded, the one whose load
/// failed, or the one the loaded file came from.
pub open spec fn state_path(st: SlotState) -> Option<String> {
    match st {
        SlotState::Empty => None,
        SlotState::Loading(q, _) => Some(q),
        SlotState::Loaded(f) => Some(f.path),
        SlotState::Failed(q, _) => Some(q),
    }
}

/// The slot after it is checked against its bound path: with no path it is
/// emptied; with a path that its state is not about (an empty slot, or a
/// load, a file or a failure of another path) it starts loading the bound
/// path, keeping the file it holds until that load ends; else it is left as
/// it is.
pub open spec fn sync_of(s: Slot) -> Slot {
    match s.bound {
        None => Slot { bound: None, state: SlotState::Empty },
        Some(p) => match state_path(s.state) {
            Some(q) => if q@ == p@ {
                s
            } else {
                set_path_of(s, p)
            },
            None => set_path_of(s, p),
        },
    }
}

impl Slot {
    /// An empty slot.
    pub fn new() -> (r: Slot)
        ensures
            r.bound is None,
            r.state is Empty,
    {
        Slot { bound: None, state: SlotState::Empty }
    }

    /// Binds `p` to the slot and begins loading it.
    pub fn set_path(&mut self, p: String)
        ensures
            *final(self) == set_path_of(*old(self), p),
    {
        let q = p.clone();
        self.bound = Some(p);
        self.begin_load(q);
    }

    /// Starts loading `p`, keeping the file the slot holds until the load
    /// ends.
    fn begin_load(&mut self, p: String)
        ensures
            final(self).bound == old(self).bound,
            final(self).state == SlotState::Loading(p, record_of(old(self).state)),
    {
        let mut old_state = SlotState::Empty;
        core::mem::swap(&mut self.state, &mut old_state);
        let prev = match old_state {
            SlotState::Loaded(f) => Some(f),
            SlotState::Loading(_, prev) => prev,
            _ => None,
        };
        self.state = SlotState::Loading(p, prev);
    }

    /// Clears the slot: no path, no file.
    pub fn unload(&mut self)
        ensures
            *final(self) == unload_of(*old(self)),
    {
        self.bound = None;
        self.state = SlotState::Empty;
    }

    /// Reads the bound path again, from scratch, if the slot holds a file or
    /// a failure.
    pub fn reload(&mut self)
        ensures
            *final(self) == reload_of(*old(self)),
    {
        let target = match &self.bound {
            Some(p) => match &self.state {
                SlotState::Loaded(_) | SlotState::Failed(_, _) => Some(p.clone()),
                _ => None,
            },
            None => None,
        };
        if let Some(q) = target {
            self.begin_load(q);
        }
    }

    /// Checks the slot against its bound path (see `sync_of`).
    pub fn sync(&mut self)
        ensures
            *final(self) == sync_of(*old(self)),
    {
        let target = match &self.bound {
            None => None,
            Some(p) => {
                let same = match &self.state {
                    SlotState::Empty => false,
                    SlotState::Loading(q, _) => *q == *p,
                    SlotState::Loaded(f) => f.path == *p,
                    SlotState::Failed(q, _) => *q == *p,
                };
                if same {
                    None
                } else {
                    Some(p.clone())
                }
            },
        };
        if self.bound.is_none() {
            self.state = SlotState::Empty;
        } else if let Some(q) = target {
            self.begin_load(q);
        }
    }

    /// The path whose bytes the slot waits for, if any.
    pub fn loading_path(&self) -> (r: Option<String>)
        ensures
            match self.state {
                SlotState::Loading(p, _) => r == Some(p),
                _ => r is None,
            },
    {
        match &self.state {
            SlotState::Loading(p, _) => Some(p.clone()),
            _ => None,
        }
    }

    /// Hands the slot what reading `path` gave: its bytes, or the reader's
    /// message. A slot that waits for that path becomes loaded, or failed
    /// with the reason; a result for any other path is stale and dropped.
    pub fn finish_load(&mut self, path: String, outcome: Result<Vec<u8>, String>)
        ensures
            final(self).bound == old(self).bound,
            match old(self).state {
                SlotState::Loading(q, _) => if q@ == path@ {
                    match outcome {
                        Ok(bytes) => match final(self).state {
                            SlotState::Loaded(f) => f.path == path && f.data == bytes
                                && f.crc32.result == crc32_of(bytes@) && decodes_as(
                                bytes@,
                                f.parsed,
                            ) is Some,
                            SlotState::Failed(p, LoadError::Decode(_)) => p == path && no_value_at(
                                bytes@,
                            ),
                            _ => false,
                        },
                        Err(msg) => final(self).state == SlotState::Failed(
                            path,
                            LoadError::Io(msg),
                        ),
                    }
                } else {
                    final(self).state == old(self).state
                },
                _ => final(self).state == old(self).state,
            },
    {
        let current = match &self.state {
            SlotState::Loading(q, _) => *q == path,
            _ => false,
        };
        if !current {
            return;
        }
        match outcome {
            Ok(bytes) => {
                let p = path.clone();
                match LoadedFile::from_bytes(path, bytes) {
                    Ok(f) => {
                        self.state = SlotState::Loaded(f);
                    },
                    Err(e) => {
                        self.state = SlotState::Failed(p, LoadError::Decode(e));
                    },
                }
            },
            Err(msg) => {
                self.state = SlotState::Failed(path, LoadError::Io(msg));
            },
        }
    }
}

/// The life of a slot: choosing a path begins a load of it, and the file the
/// slot held stays until that load ends; once its file is loaded, a reload
/// reads that path again rather than keeping the old bytes; an unload leaves
/// an empty slot with no path and no record.
pub proof fn law_slot_lifecycle(s: Slot, p: String, f: LoadedFile)
    ensures
        set_path_of(s, p).state == SlotState::Loading(p, record_of(s.state)),
        s.state == SlotState::Loaded(f) ==> set_path_of(s, p).state == SlotState::Loading(
            p,
            Some(f),
        ),
        reload_of(Slot { bound: set_path_of(s, p).bound, state: SlotState::Loaded(f) }).state
            == SlotState::Loading(p, Some(f)),
        unload_of(s).bound is None,
        unload_of(s).state is Empty,
{
}

/// The two slots, A and B, whose files are shown side by side.
#[derive(Debug)]
pub struct MsgPackDifferApp {
    pub a: Slot,
    pub b: Slot,
}

/// What the diff pane asks for, given which slots have a path bound.
pub open spec fn prompt_of(a_bound: bool, b_bound: bool) -> Option<Seq<char>> {
    if !a_bound && !b_bound {
        Some("Select files A and B to compare them"@)
    } else if !a_bound {
        Some("Select file A to compare with file B"@)
    } else if !b_bound {
        Some("Select file B to compare with file A"@)
    } else {
        None
    }
}

impl MsgPackDifferApp {
    /// Two empty slots.
    pub fn new() -> (r: MsgPackDifferApp)
        ensures
            r.a.bound is None && r.a.state is Empty,
            r.b.bound is None && r.b.state is Empty,
    {
        MsgPackDifferApp { a: Slot::new(), b: Slot::new() }
    }

    /// The prompt of the diff pane while a slot has no path.
    pub fn diff_prompt(&self) -> (r: Option<&'static str>)
        ensures
            match r {
                Some(t) => prompt_of(self.a.bound is Some, self.b.bound is Some) == Some(t@),
                None => prompt_of(self.a.bound is Some, self.b.bound is Some) is None,
            },
    {
        let a = self.a.bound.is_some();
        let b = self.b.bound.is_some();
        if !a && !b {
            Some("Select files A and B to compare them")
        } else if !a {
            Some("Select file A to compare with file B")
        } else if !b {
            Some("Select file B to compare with file A")
        } else {
            None
        }
    }

    /// Binds the files the user picked: with two or more, the first goes to
    /// A and the second to B (the rest are not used); with one, it goes to A
    /// if A has no path, else to B; with none, nothing changes.
    pub fn pick_files(&mut self, paths: Vec<String>)
        ensures
            paths@.len() >= 2 ==> final(self).a == set_path_of(old(self).a, paths@[0])
                && final(self).b == set_path_of(old(self).b, paths@[1]),
            paths@.len() == 1 && old(self).a.bound is None ==> final(self).a == set_path_of(
                old(self).a,
                paths@[0],
            ) && final(self).b == old(self).b,
            paths@.len() == 1 && old(self).a.bound is Some ==> final(self).a == old(self).a
                && final(self).b == set_path_of(old(self).b, paths@[0]),
            paths@.len() == 0 ==> *final(self) == *old(self),
    {
        if paths.len() >= 2 {
            let p0 = paths[0].clone();
            let p1 = paths[1].clone();
            self.a.set_path(p0);
            self.b.set_path(p1);
        } else if paths.len() == 1 {
            let p0 = paths[0].clone();
            if self.a.bound.is_none() {
                self.a.set_path(p0);
            } else {
                self.b.set_path(p0);
            }
        }
    }
}

} // verus!
