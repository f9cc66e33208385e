//! The decisions of a run over a file.
//!
//! A driver reads the file, hands chunks to workers and waits for them; the
//! coordinator decides. It says what to do next, takes in what a read
//! brought and what a worker returned, and in the end gives the table or
//! the first failure. At most `cap` workers are busy at any time. After a
//! failure nothing more is read, and what the remaining workers return is
//! dropped.

use vstd::prelude::*;
use crate::bytes::NEWLINE;
use crate::chunk::{cut_of, lemma_has_cut, plan_chunk, Cut};
use crate::records::{lemma_scan_join, lemma_scan_short, scan, Fault, ParseError, Scan};
use crate::table::Table;
use crate::tally::Tally;

verus! {

/// Why a run failed.
#[derive(Clone, Copy, Debug, PartialEq, Eq, Structural)]
pub enum RunError {
    /// A line is no record; the offset is that of the line in the file.
    Format { fault: Fault, offset: u64 },
    /// The line at this offset does not fit the largest buffer.
    OversizedRecord { offset: u64 },
    /// The file holds more records than a `u64` counts.
    TooManyRecords,
}

/// What the driver is to do next.
#[derive(Clone, Copy, Debug, PartialEq, Eq, Structural)]
pub enum Step {
    /// Read up to `len` bytes at `offset` and hand them to `chunk_read`.
    Read { offset: u64, len: usize },
    /// Wait for a worker and hand what it returns to `worker_done`.
    Join,
    /// Nothing is left to do: call `finish`.
    Finish,
}

/// The state of a run.
pub struct Progress {
    /// The chunk size that reads begin with.
    pub target: nat,
    /// The largest buffer that a read may ask for.
    pub limit: nat,
    /// The largest number of busy workers.
    pub cap: nat,
    /// The size of the next read.
    pub span: nat,
    /// The offset of the next read.
    pub offset: nat,
    /// The number of busy workers.
    pub active: nat,
    /// The end of the file was reached.
    pub ended: bool,
    /// The first failure.
    pub failure: Option<RunError>,
    /// What has been merged so far.
    pub tally: Tally,
}

impl Progress {
    /// What is to be done next in this state.
    pub open spec fn next(self) -> Step {
        if self.failure.is_some() || self.ended {
            if self.active > 0 {
                Step::Join
            } else {
                Step::Finish
            }
        } else if self.active >= self.cap {
            Step::Join
        } else {
            Step::Read { offset: self.offset as u64, len: self.span as usize }
        }
    }

    /// The state after a read brought a buffer of `len` bytes with this
    /// cut. A chunk goes to a worker; the next read begins behind it with
    /// the first chunk size. A buffer too small for its line is read again
    /// with twice the size, as far as the limit allows, and is a failure
    /// at the limit.
    pub open spec fn read(self, cut: Cut, len: nat) -> Progress {
        match cut {
            Cut::End => Progress { ended: true, ..self },
            Cut::Whole => Progress {
                ended: true,
                offset: self.offset + len,
                active: self.active + 1,
                ..self
            },
            Cut::At(e) => Progress {
                offset: (self.offset + e + 1) as nat,
                span: self.target,
                active: self.active + 1,
                ..self
            },
            Cut::Grow => if self.span >= self.limit {
                Progress {
                    failure: Some(RunError::OversizedRecord { offset: self.offset as u64 }),
                    ..self
                }
            } else {
                Progress {
                    span: if 2 * self.span > self.limit { self.limit } else { 2 * self.span },
                    ..self
                }
            },
        }
    }

    /// The length of the chunk that goes to a worker after a read with
    /// this cut, if one does: the chunk is the beginning of the buffer.
    pub open spec fn chunk(cut: Cut, len: nat) -> Option<usize> {
        match cut {
            Cut::Whole => Some(len as usize),
            Cut::At(e) => Some(e),
            _ => None,
        }
    }

    /// The state after the worker on the chunk at offset `base` returned.
    /// Its table is merged; its fault becomes the failure of the run, with
    /// the offset counted from the beginning of the file (and held at
    /// `u64::MAX` where it would pass it). After a failure whatever comes
    /// is dropped.
    pub open spec fn joined(self, base: u64, outcome: Result<Tally, ParseError>) -> Progress {
        let less = Progress { active: (self.active - 1) as nat, ..self };
        if self.failure.is_some() {
            less
        } else {
            match outcome {
                Ok(t) => if self.tally.records + t.records > u64::MAX {
                    Progress { failure: Some(RunError::TooManyRecords), ..less }
                } else {
                    Progress { tally: self.tally.merge(t), ..less }
                },
                Err(e) => Progress {
                    failure: Some(
                        RunError::Format {
                            fault: e.fault,
                            offset: if base + e.offset > u64::MAX {
                                u64::MAX
                            } else {
                                (base + e.offset) as u64
                            },
                        },
                    ),
                    ..less
                },
            }
        }
    }
}

/// What the read that a state asks for brings from a file: the bytes at
/// the state's offset, as many as the span and the file allow.
pub open spec fn buffer_at(file: Seq<u8>, p: Progress) -> Seq<u8> {
    let end = if p.offset + p.span < file.len() { (p.offset + p.span) as int } else { file.len() as int };
    file.subrange(p.offset as int, end)
}

/// Reads cover the file chunk by chunk. Of what stands in the file from
/// the offset on, a read leaves out nothing and takes nothing twice: at
/// the end nothing that holds a record is left; the last chunk is all that
/// is left; any other chunk, a newline, and what stands from the next
/// offset on make up what stood from this offset on; and a read that must
/// grow stays where it is. So the scan from the offset on is the scan of
/// the chunk followed by the scan from the next offset on.
pub proof fn lemma_read_covers(p: Progress, file: Seq<u8>)
    requires
        p.offset <= file.len(),
        4 <= p.span <= usize::MAX,
    ensures
        ({
            let buf = buffer_at(file, p);
            let cut = cut_of(buf, p.span as int);
            let q = p.read(cut, buf.len());
            let rest = file.skip(p.offset as int);
            match cut {
                Cut::End => scan(rest) == Scan::nothing(),
                Cut::Whole => rest == buf && q.offset == file.len(),
                Cut::At(e) => {
                    &&& q.offset <= file.len()
                    &&& rest == buf.take(e as int) + seq![NEWLINE] + file.skip(q.offset as int)
                    &&& scan(rest) == scan(buf.take(e as int)).followed_by(
                        scan(file.skip(q.offset as int)),
                        e + 1,
                    )
                },
                Cut::Grow => q.offset == p.offset,
            }
        }),
{
    let buf = buffer_at(file, p);
    let cut = cut_of(buf, p.span as int);
    let q = p.read(cut, buf.len());
    let rest = file.skip(p.offset as int);
    lemma_has_cut(buf, p.span as int);
    match cut {
        Cut::End => {
            assert(rest =~= buf);
            lemma_scan_short(rest);
        },
        Cut::Whole => {
            assert(rest =~= buf);
        },
        Cut::At(e) => {
            let next = file.skip(q.offset as int);
            assert(rest =~= buf.take(e as int) + seq![NEWLINE] + next);
            lemma_scan_join(buf.take(e as int), next);
        },
        Cut::Grow => {},
    }
}

/// What a worker returned, with its table as a tally.
pub open spec fn outcome_view(outcome: Result<Table, ParseError>) -> Result<Tally, ParseError> {
    match outcome {
        Ok(t) => Ok(t@),
        Err(e) => Err(e),
    }
}

/// The coordinator of a run.
pub struct Coordinator {
    target: usize,
    limit: usize,
    cap: usize,
    span: usize,
    offset: u64,
    active: usize,
    ended: bool,
    failure: Option<RunError>,
    table: Table,
}

impl View for Coordinator {
    type V = Progress;

    closed spec fn view(&self) -> Progress {
        Progress {
            target: self.target as nat,
            limit: self.limit as nat,
            cap: self.cap as nat,
            span: self.span as nat,
            offset: self.offset as nat,
            active: self.active as nat,
            ended: self.ended,
            failure: self.failure,
            tally: self.table@,
        }
    }
}

impl Coordinator {
    #[verifier::type_invariant]
    spec fn inv(self) -> bool {
        &&& 4 <= self.target <= self.span <= self.limit
        &&& 1 <= self.cap
        &&& self.active <= self.cap
    }

    /// A coordinator at the beginning of a file, for reads of `target`
    /// bytes that may grow up to `limit` bytes, and for `cap` workers.
    pub fn new(target: usize, limit: usize, cap: usize) -> (c: Coordinator)
        requires
            4 <= target <= limit,
            1 <= cap,
        ensures
            c@ == (Progress {
                target: target as nat,
                limit: limit as nat,
                cap: cap as nat,
                span: target as nat,
                offset: 0,
                active: 0,
                ended: false,
                failure: None,
                tally: Tally::empty(),
            }),
    {
        Coordinator {
            target,
            limit,
            cap,
            span: target,
            offset: 0,
            active: 0,
            ended: false,
            failure: None,
            table: Table::new(),
        }
    }

    /// What the driver is to do next. In every state the number of busy
    /// workers is within the cap, and the size of a read lies between the
    /// first chunk size and the limit.
    pub fn next_step(&self) -> (step: Step)
        ensures
            step == self@.next(),
            step == Step::Join ==> self@.active > 0,
            self@.active <= self@.cap,
            4 <= self@.target <= self@.span <= self@.limit,
    {
        proof {
            use_type_invariant(self);
        }
        if self.failure.is_some() || self.ended {
            if self.active > 0 {
                Step::Join
            } else {
                Step::Finish
            }
        } else if self.active >= self.cap {
            Step::Join
        } else {
            Step::Read { offset: self.offset, len: self.span }
        }
    }

    /// Takes in the buffer of the read that `next_step` asked for. Where
    /// it returns a length, the beginning of the buffer of that length is
    /// a chunk of whole lines for a worker.
    pub fn chunk_read(&mut self, buf: &[u8]) -> (chunk: Option<usize>)
        requires
            old(self)@.next() is Read,
            buf@.len() <= old(self)@.span,
            old(self)@.offset + buf@.len() <= u64::MAX,
        ensures
            final(self)@ == old(self)@.read(cut_of(buf@, old(self)@.span as int), buf@.len()),
            chunk == Progress::chunk(cut_of(buf@, old(self)@.span as int), buf@.len()),
            chunk.is_some() ==> chunk.unwrap() <= buf@.len(),
    {
        proof {
            use_type_invariant(&*self);
        }
        let cut = plan_chunk(buf, self.span);
        match cut {
            Cut::End => {
                self.ended = true;
                None
            },
            Cut::Whole => {
                self.ended = true;
                self.offset = self.offset + buf.len() as u64;
                self.active = self.active + 1;
                Some(buf.len())
            },
            Cut::At(e) => {
                self.offset = self.offset + e as u64 + 1;
                self.span = self.target;
                self.active = self.active + 1;
                Some(e)
            },
            Cut::Grow => {
                if self.span >= self.limit {
                    self.failure = Some(RunError::OversizedRecord { offset: self.offset });
                } else if self.span > self.limit / 2 {
                    self.span = self.limit;
                } else {
                    self.span = self.span * 2;
                }
                None
            },
        }
    }

    /// Takes in what the worker on the chunk at offset `base` returned.
    pub fn worker_done(&mut self, base: u64, outcome: Result<Table, ParseError>)
        requires
            old(self)@.active > 0,
        ensures
            final(self)@ == old(self)@.joined(base, outcome_view(outcome)),
    {
        proof {
            use_type_invariant(&*self);
        }
        self.active = self.active - 1;
        if self.failure.is_some() {
            return;
        }
        match outcome {
            Ok(table) => {
                let mut whole = Table::new();
                core::mem::swap(&mut self.table, &mut whole);
                match whole.merge(table) {
                    Ok(()) => {},
                    Err(_) => {
                        self.failure = Some(RunError::TooManyRecords);
                    },
                }
                core::mem::swap(&mut self.table, &mut whole);
            },
            Err(e) => {
                let offset = if e.offset as u64 > u64::MAX - base {
                    u64::MAX
                } else {
                    base + e.offset as u64
                };
                self.failure = Some(RunError::Format { fault: e.fault, offset });
            },
        }
    }

    /// The result of the run: the first failure, or the table.
    pub fn finish(self) -> (r: Result<Table, RunError>)
        ensures
            match self@.failure {
                Some(f) => r == Err::<Table, RunError>(f),
                None => r.is_ok() && r.unwrap()@ == self@.tally,
            },
    {
        match self.failure {
            Some(f) => Err(f),
            None => Ok(self.table),
        }
    }
}

} // verus!
