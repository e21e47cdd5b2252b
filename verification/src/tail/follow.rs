//! Decisions of follow mode, which prints what is appended to files as
//! they grow. The files themselves are opened, measured, read and waited
//! on by the program around the library. Each check of a file for new data
//! is a short exchange: [`FollowState::begin_check`] says what to observe
//! first, and each observation, handed back to [`FollowState::path_inspected`],
//! [`FollowState::reopen_result`] or [`FollowState::measured`], says what to
//! do next, until the check ends with new data to print, none, or an error.
//! [`FollowOutput`] decides the headers between the data of several files.
//!
//! Two modes: following the open file (`-f`), and following the name
//! (`-F`/`--follow=name`), which notices a file replaced by another one
//! (log rotation) by its inode number.

use vstd::prelude::*;

use crate::cli::FollowMode;

verus! {

/// State for following a single file.
pub struct FollowState {
    /// The file's name.
    pub path: String,
    /// Whether the file is open.
    pub open: bool,
    /// Offset up to which the file's content has been printed.
    pub position: u64,
    /// Whether to keep trying to open a file that is inaccessible.
    pub retry: bool,
    /// Inode number of the open file, when known.
    pub inode: Option<u64>,
    /// Where the current check of the file stands.
    pub phase: CheckPhase,
}

/// Where a check of a followed file for new data stands, between the
/// observations that the program makes for it.
#[derive(Debug, Clone, Copy, PartialEq, Eq, Structural)]
pub enum CheckPhase {
    /// No check under way.
    Ready,
    /// Waiting for the path's metadata, to compare inode numbers.
    InspectByInode,
    /// Waiting for the path's metadata, to compare lengths (where inode
    /// numbers are not available).
    InspectByLength,
    /// Waiting for the result of opening a file that was not open.
    ReopenClosed,
    /// Waiting for the result of opening a file that replaced the followed
    /// one.
    ReopenReplaced,
    /// Waiting for the length of the open file.
    MeasureOpen,
    /// Waiting for the length of a file that replaced the followed one.
    MeasureReplacement,
}

/// What the program does next in a check of a followed file.
#[derive(Debug, Clone, Copy, PartialEq, Eq, Structural)]
pub enum FollowAction {
    /// Read the metadata at the file's path and report it with
    /// [`FollowState::path_inspected`].
    InspectPath,
    /// Report the file replaced, close it, open it again and report the
    /// outcome with [`FollowState::reopen_result`].
    Replaced,
    /// Open the file again and report the outcome with
    /// [`FollowState::reopen_result`].
    Reopen,
    /// Read the open file's length and report it with
    /// [`FollowState::measured`].
    Measure,
    /// New data: report the file truncated first when `truncated`, then
    /// print the open file from offset `from` to its end.
    Print { from: u64, truncated: bool },
    /// No new data (report the file truncated first when `truncated`).
    Idle { truncated: bool },
    /// The check fails with the error of opening the file again.
    Fail,
}

/// What the program found at a followed file's path.
#[derive(Debug, Clone, Copy, PartialEq, Eq, Structural)]
pub struct PathInfo {
    /// The inode number there, when available.
    pub inode: Option<u64>,
    /// The length of the file there.
    pub len: u64,
}

/// How the position moves when an open file is seen with `size` bytes,
/// having printed up to `position`: the offset new data is printed from,
/// if any, and the new position. A file shorter than what was printed was
/// truncated and is printed again from its start.
pub open spec fn size_step(position: nat, size: nat) -> (Option<nat>, nat) {
    let from = if size < position {
        0
    } else {
        position
    };
    if size > from {
        (Some(from), size)
    } else {
        (None, from)
    }
}

/// The next step of a check that follows the open file: measure it when it
/// is open; open it again when it is not and retrying is on; otherwise no
/// new data.
pub open spec fn descriptor_action(open: bool, retry: bool) -> FollowAction {
    if open {
        FollowAction::Measure
    } else if retry {
        FollowAction::Reopen
    } else {
        FollowAction::Idle { truncated: false }
    }
}

/// The phase that goes with [`descriptor_action`].
pub open spec fn descriptor_phase(open: bool, retry: bool) -> CheckPhase {
    if open {
        CheckPhase::MeasureOpen
    } else if retry {
        CheckPhase::ReopenClosed
    } else {
        CheckPhase::Ready
    }
}

/// What a look at an open file's size calls for.
#[derive(Debug, Clone, Copy, PartialEq, Eq, Structural)]
pub struct SizeCheck {
    /// The file shrank below what was printed: report it truncated.
    pub truncated: bool,
    /// New data to print, from this offset up to the size seen.
    pub read_from: Option<u64>,
}

impl FollowState {
    /// A file not opened yet.
    pub fn new(path: String, retry: bool) -> (s: Self)
        ensures
            s.path == path,
            s.retry == retry,
            !s.open,
            s.position == 0,
            s.inode is None,
            s.phase == CheckPhase::Ready,
    {
        FollowState { path, open: false, position: 0, retry, inode: None, phase: CheckPhase::Ready }
    }

    /// The file was opened and its end found at offset `end`, with its
    /// inode number when that could be read: following starts there.
    pub fn opened_at_end(&mut self, end: u64, inode: Option<u64>)
        ensures
            final(self).open,
            final(self).position == end,
            final(self).inode == if inode is Some {
                inode
            } else {
                old(self).inode
            },
            final(self).path == old(self).path,
            final(self).retry == old(self).retry,
            final(self).phase == old(self).phase,
    {
        self.open = true;
        self.position = end;
        if inode.is_some() {
            self.inode = inode;
        }
    }

    /// Whether a failure to open the file is reported: only when retrying,
    /// as the file may appear later.
    pub fn reports_open_failure(&self) -> (b: bool)
        ensures
            b == self.retry,
    {
        self.retry
    }

    /// The open file now has `size` bytes. When it shrank below what was
    /// printed it was truncated, and printing starts again from its start;
    /// when it is larger than what was printed, the rest is new data.
    pub fn check_size(&mut self, size: u64) -> (c: SizeCheck)
        ensures
            c.truncated == (size < old(self).position),
            c.read_from == match size_step(old(self).position as nat, size as nat).0 {
                Some(f) => Some(f as u64),
                None => None::<u64>,
            },
            final(self).position == size_step(old(self).position as nat, size as nat).1,
            final(self).open == old(self).open,
            final(self).inode == old(self).inode,
            final(self).path == old(self).path,
            final(self).retry == old(self).retry,
            final(self).phase == old(self).phase,
    {
        let truncated = size < self.position;
        if truncated {
            self.position = 0;
        }
        if size > self.position {
            let from = self.position;
            self.position = size;
            SizeCheck { truncated, read_from: Some(from) }
        } else {
            SizeCheck { truncated, read_from: None }
        }
    }

    /// Whether the file at the path is no longer the one followed, given
    /// the inode number found there (`None` when the path cannot be read):
    /// only known once the followed file's inode number is.
    pub fn is_replaced(&self, on_disk: Option<u64>) -> (b: bool)
        ensures
            b == match self.inode {
                Some(i) => on_disk != Some(i),
                None => false,
            },
    {
        match self.inode {
            Some(i) => match on_disk {
                Some(j) => j != i,
                None => true,
            },
            None => false,
        }
    }

    /// Where inode numbers are not available: whether the file at the path
    /// is taken as replaced, given its length there (`None` when the path
    /// cannot be read): when a file is open and the path is gone or shorter
    /// than what was printed.
    pub fn is_replaced_by_length(&self, on_disk_len: Option<u64>) -> (b: bool)
        ensures
            b == (self.open && match on_disk_len {
                Some(l) => l < self.position,
                None => true,
            }),
    {
        if !self.open {
            return false;
        }
        match on_disk_len {
            Some(l) => l < self.position,
            None => true,
        }
    }

    /// The followed file was replaced: it is closed and nothing of the new
    /// one has been printed.
    pub fn forget_file(&mut self)
        ensures
            !final(self).open,
            final(self).position == 0,
            final(self).inode == old(self).inode,
            final(self).path == old(self).path,
            final(self).retry == old(self).retry,
            final(self).phase == old(self).phase,
    {
        self.open = false;
        self.position = 0;
    }

    /// The file was opened again, with its inode number when that could be
    /// read: nothing of it has been printed.
    pub fn reopened(&mut self, inode: Option<u64>)
        ensures
            final(self).open,
            final(self).position == 0,
            final(self).inode == if inode is Some {
                inode
            } else {
                old(self).inode
            },
            final(self).path == old(self).path,
            final(self).retry == old(self).retry,
            final(self).phase == old(self).phase,
    {
        self.open = true;
        self.position = 0;
        if inode.is_some() {
            self.inode = inode;
        }
    }

    /// A replacing file was opened and has `size` bytes: all of it is new
    /// data, printed from its start, when it is not empty.
    pub fn check_new_file_size(&mut self, size: u64) -> (has_data: bool)
        ensures
            has_data == (size > 0),
            final(self).position == if size > 0 {
                size
            } else {
                old(self).position
            },
            final(self).open == old(self).open,
            final(self).inode == old(self).inode,
            final(self).path == old(self).path,
            final(self).retry == old(self).retry,
            final(self).phase == old(self).phase,
    {
        if size > 0 {
            self.position = size;
            true
        } else {
            false
        }
    }

    /// Starts a check for new data. Following the name, the path is first
    /// inspected: by inode number once the followed file's is known (with
    /// `inode_numbers`), or by length while the file is open (without).
    /// Otherwise, as when following the open file, see
    /// [`descriptor_action`].
    pub fn begin_check(&mut self, mode: FollowMode, inode_numbers: bool) -> (a: FollowAction)
        ensures
            ({
                let by_inode = mode == FollowMode::Name && inode_numbers && old(self).inode is Some;
                let by_length = mode == FollowMode::Name && !inode_numbers && old(self).open;
                if by_inode || by_length {
                    &&& a == FollowAction::InspectPath
                    &&& final(self).phase == if by_inode {
                        CheckPhase::InspectByInode
                    } else {
                        CheckPhase::InspectByLength
                    }
                } else {
                    &&& a == descriptor_action(old(self).open, old(self).retry)
                    &&& final(self).phase == descriptor_phase(old(self).open, old(self).retry)
                }
            }),
            final(self).open == old(self).open,
            final(self).position == old(self).position,
            final(self).inode == old(self).inode,
            final(self).path == old(self).path,
            final(self).retry == old(self).retry,
    {
        if mode == FollowMode::Name {
            if inode_numbers && self.inode.is_some() {
                self.phase = CheckPhase::InspectByInode;
                return FollowAction::InspectPath;
            }
            if !inode_numbers && self.open {
                self.phase = CheckPhase::InspectByLength;
                return FollowAction::InspectPath;
            }
        }
        self.descriptor_step()
    }

    fn descriptor_step(&mut self) -> (a: FollowAction)
        ensures
            a == descriptor_action(old(self).open, old(self).retry),
            final(self).phase == descriptor_phase(old(self).open, old(self).retry),
            final(self).open == old(self).open,
            final(self).position == old(self).position,
            final(self).inode == old(self).inode,
            final(self).path == old(self).path,
            final(self).retry == old(self).retry,
    {
        if self.open {
            self.phase = CheckPhase::MeasureOpen;
            FollowAction::Measure
        } else if self.retry {
            self.phase = CheckPhase::ReopenClosed;
            FollowAction::Reopen
        } else {
            self.phase = CheckPhase::Ready;
            FollowAction::Idle { truncated: false }
        }
    }

    /// What was found at the path (`None` when it cannot be read). The file
    /// was replaced when the path cannot be read, or when its inode number
    /// differs from the followed file's (by inode) or it is shorter than
    /// what was printed (by length). A replaced file is closed, nothing of
    /// it counts as printed, and it is opened again; otherwise the check
    /// goes on as when following the open file.
    pub fn path_inspected(&mut self, on_disk: Option<PathInfo>) -> (a: FollowAction)
        requires
            old(self).phase == CheckPhase::InspectByInode || old(self).phase
                == CheckPhase::InspectByLength,
        ensures
            ({
                let replaced = match on_disk {
                    None => true,
                    Some(p) => if old(self).phase == CheckPhase::InspectByInode {
                        p.inode != old(self).inode
                    } else {
                        p.len < old(self).position
                    },
                };
                if replaced {
                    &&& a == FollowAction::Replaced
                    &&& final(self).phase == CheckPhase::ReopenReplaced
                    &&& !final(self).open
                    &&& final(self).position == 0
                } else {
                    &&& a == descriptor_action(old(self).open, old(self).retry)
                    &&& final(self).phase == descriptor_phase(old(self).open, old(self).retry)
                    &&& final(self).open == old(self).open
                    &&& final(self).position == old(self).position
                }
            }),
            final(self).inode == old(self).inode,
            final(self).path == old(self).path,
            final(self).retry == old(self).retry,
    {
        let replaced = match on_disk {
            None => true,
            Some(p) => if self.phase == CheckPhase::InspectByInode {
                p.inode != self.inode
            } else {
                p.len < self.position
            },
        };
        if replaced {
            self.open = false;
            self.position = 0;
            self.phase = CheckPhase::ReopenReplaced;
            FollowAction::Replaced
        } else {
            self.descriptor_step()
        }
    }

    /// The outcome of opening the file again: `Some` with its inode number
    /// (when that could be read) when it opened, `None` when it did not.
    /// Once opened nothing of it counts as printed: a file that replaced
    /// the followed one is then measured, and a file that was not open has
    /// no new data yet. A failure is the check's error when not retrying,
    /// and no new data otherwise.
    pub fn reopen_result(&mut self, opened: Option<Option<u64>>) -> (a: FollowAction)
        requires
            old(self).phase == CheckPhase::ReopenClosed || old(self).phase
                == CheckPhase::ReopenReplaced,
        ensures
            match opened {
                Some(inode) => {
                    &&& final(self).open
                    &&& final(self).position == 0
                    &&& final(self).inode == if inode is Some {
                        inode
                    } else {
                        old(self).inode
                    }
                    &&& if old(self).phase == CheckPhase::ReopenReplaced {
                        a == FollowAction::Measure && final(self).phase
                            == CheckPhase::MeasureReplacement
                    } else {
                        a == FollowAction::Idle { truncated: false } && final(self).phase
                            == CheckPhase::Ready
                    }
                },
                None => {
                    &&& final(self).open == old(self).open
                    &&& final(self).position == old(self).position
                    &&& final(self).inode == old(self).inode
                    &&& final(self).phase == CheckPhase::Ready
                    &&& a == if old(self).retry {
                        FollowAction::Idle { truncated: false }
                    } else {
                        FollowAction::Fail
                    }
                },
            },
            final(self).path == old(self).path,
            final(self).retry == old(self).retry,
    {
        match opened {
            Some(inode) => {
                let replacing = self.phase == CheckPhase::ReopenReplaced;
                self.reopened(inode);
                if replacing {
                    self.phase = CheckPhase::MeasureReplacement;
                    FollowAction::Measure
                } else {
                    self.phase = CheckPhase::Ready;
                    FollowAction::Idle { truncated: false }
                }
            },
            None => {
                self.phase = CheckPhase::Ready;
                if self.retry {
                    FollowAction::Idle { truncated: false }
                } else {
                    FollowAction::Fail
                }
            },
        }
    }

    /// The open file's length. For the followed file, new data is what lies
    /// past the position (see [`size_step`]); for a file that replaced it,
    /// all of it, when it is not empty.
    pub fn measured(&mut self, size: u64) -> (a: FollowAction)
        requires
            old(self).phase == CheckPhase::MeasureOpen || old(self).phase
                == CheckPhase::MeasureReplacement,
        ensures
            final(self).phase == CheckPhase::Ready,
            old(self).phase == CheckPhase::MeasureOpen ==> {
                let (from, pos) = size_step(old(self).position as nat, size as nat);
                let truncated = size < old(self).position;
                &&& final(self).position == pos
                &&& a == match from {
                    Some(f) => FollowAction::Print { from: f as u64, truncated },
                    None => FollowAction::Idle { truncated },
                }
            },
            old(self).phase == CheckPhase::MeasureReplacement ==> {
                &&& final(self).position == if size > 0 {
                    size
                } else {
                    old(self).position
                }
                &&& a == if size > 0 {
                    FollowAction::Print { from: 0, truncated: false }
                } else {
                    FollowAction::Idle { truncated: false }
                }
            },
            final(self).open == old(self).open,
            final(self).inode == old(self).inode,
            final(self).path == old(self).path,
            final(self).retry == old(self).retry,
    {
        let a = if self.phase == CheckPhase::MeasureOpen {
            let c = self.check_size(size);
            match c.read_from {
                Some(f) => FollowAction::Print { from: f, truncated: c.truncated },
                None => FollowAction::Idle { truncated: c.truncated },
            }
        } else {
            if self.check_new_file_size(size) {
                FollowAction::Print { from: 0, truncated: false }
            } else {
                FollowAction::Idle { truncated: false }
            }
        };
        self.phase = CheckPhase::Ready;
        a
    }
}

/// What to print before new data of a followed file: an empty line, then
/// a header with its name.
#[derive(Debug, Clone, Copy, PartialEq, Eq, Structural)]
pub struct HeaderAction {
    /// Print an empty line first.
    pub blank_line: bool,
    /// Print the `==> name <==` header.
    pub header: bool,
}

/// The header decision of [`follow_header`].
pub open spec fn header_action(
    show_headers: bool,
    multiple_files: bool,
    last_printed: Option<usize>,
    i: usize,
) -> HeaderAction {
    let header = show_headers && (multiple_files || last_printed != Some(i));
    HeaderAction { blank_line: header && last_printed is Some, header }
}

/// What to print before new data of the `i`-th followed file, given
/// whether headers are shown, whether several files are followed, and
/// which file's data was printed last. The header is printed when headers
/// are shown and either several files are followed or the previous data
/// came from another file; the empty line goes before a header that is not
/// the first thing printed.
pub fn follow_header(
    show_headers: bool,
    multiple_files: bool,
    last_printed: Option<usize>,
    i: usize,
) -> (a: HeaderAction)
    ensures
        a == header_action(show_headers, multiple_files, last_printed, i),
{
    let header = show_headers && (multiple_files || last_printed != Some(i));
    HeaderAction { blank_line: header && last_printed.is_some(), header }
}


/// What follow mode remembers about its output: whether headers are shown,
/// whether several files are followed, and which file's data was printed
/// last.
pub struct FollowOutput {
    /// Whether headers are shown.
    pub show_headers: bool,
    /// Whether more than one file is followed.
    pub multiple_files: bool,
    /// Index of the file whose data was printed last.
    pub last_printed: Option<usize>,
}

impl FollowOutput {
    /// Nothing printed yet, following `file_count` files.
    pub fn new(show_headers: bool, file_count: usize) -> (o: Self)
        ensures
            o.show_headers == show_headers,
            o.multiple_files == (file_count > 1),
            o.last_printed is None,
    {
        FollowOutput { show_headers, multiple_files: file_count > 1, last_printed: None }
    }

    /// New data of the `i`-th file is about to be printed: what to print
    /// before it; that file's data is then the last printed.
    pub fn before_new_data(&mut self, i: usize) -> (a: HeaderAction)
        ensures
            a == header_action(
                old(self).show_headers,
                old(self).multiple_files,
                old(self).last_printed,
                i,
            ),
            final(self).last_printed == Some(i),
            final(self).show_headers == old(self).show_headers,
            final(self).multiple_files == old(self).multiple_files,
    {
        let a = follow_header(self.show_headers, self.multiple_files, self.last_printed, i);
        self.last_printed = Some(i);
        a
    }
}

/// The byte ranges printed, as `(from, to)`, when an open file printed up
/// to `position` is then seen with the successive `sizes`.
pub open spec fn ranges_printed(position: nat, sizes: Seq<nat>) -> Seq<(nat, nat)>
    decreases sizes.len(),
{
    if sizes.len() == 0 {
        Seq::empty()
    } else {
        let (from, next) = size_step(position, sizes[0]);
        let rest = ranges_printed(next, sizes.drop_first());
        match from {
            Some(f) => seq![(f, sizes[0])] + rest,
            None => rest,
        }
    }
}

/// The offsets in the ranges, in order.
pub open spec fn offsets(ranges: Seq<(nat, nat)>) -> Seq<nat>
    decreases ranges.len(),
{
    if ranges.len() == 0 {
        Seq::empty()
    } else {
        Seq::new((ranges[0].1 - ranges[0].0) as nat, |k: int| (ranges[0].0 + k) as nat) + offsets(
            ranges.drop_first(),
        )
    }
}

/// The consecutive offsets from `a` up to `b` (none when `b <= a`).
pub open spec fn span(a: nat, b: nat) -> Seq<nat> {
    if b <= a {
        Seq::empty()
    } else {
        Seq::new((b - a) as nat, |k: int| (a + k) as nat)
    }
}

/// Following a file that only grows (each size seen is at least the one
/// before, and at least what was printed), every byte appended after what
/// was printed is printed exactly once, in order: the offsets printed are
/// exactly those from the position up to the last size seen.
pub proof fn law_growing_file_printed_once(position: nat, sizes: Seq<nat>)
    requires
        forall|i: int| 0 <= i < sizes.len() ==> position <= #[trigger] sizes[i],
        forall|i: int, j: int| 0 <= i <= j < sizes.len() ==> sizes[i] <= sizes[j],
    ensures
        offsets(ranges_printed(position, sizes)) == if sizes.len() == 0 {
            Seq::<nat>::empty()
        } else {
            span(position, sizes.last())
        },
    decreases sizes.len(),
{
    if sizes.len() > 0 {
        let s0 = sizes[0];
        let rest = sizes.drop_first();
        let (from, next) = size_step(position, s0);
        assert(next == s0);
        law_growing_file_printed_once(s0, rest);
        let r = ranges_printed(s0, rest);
        let tail = if rest.len() == 0 {
            Seq::<nat>::empty()
        } else {
            span(s0, rest.last())
        };
        if rest.len() > 0 {
            assert(rest.last() == sizes.last());
            assert(sizes[0] <= sizes[sizes.len() - 1]);
        }
        if s0 > position {
            let first = seq![(position, s0)];
            assert(ranges_printed(position, sizes) == first + r);
            assert((first + r).drop_first() =~= r);
            assert(offsets(first + r) == Seq::new((s0 - position) as nat, |k: int| (position
                + k) as nat) + offsets(r));
            assert(offsets(first + r) =~= span(position, sizes.last()));
        } else {
            assert(ranges_printed(position, sizes) == r);
            if rest.len() == 0 {
                assert(span(position, sizes.last()) =~= Seq::<nat>::empty());
            } else {
                assert(tail =~= span(position, sizes.last()));
            }
        }
    }
}


/// Whether follow mode ends before a round of checks, given whether the
/// monitored process is alive (`None` when no process is monitored): it
/// ends exactly when a monitored process has died, and never otherwise.
pub fn follow_ends(pid_alive: Option<bool>) -> (ends: bool)
    ensures
        ends == (pid_alive == Some(false)),
{
    match pid_alive {
        Some(alive) => !alive,
        None => false,
    }
}


/// Headers in follow mode: none when headers are not shown. When they are,
/// new data of a file other than the last one printed always gets a header,
/// and so does every new data when several files are followed; only a
/// single followed file printing again after itself goes without. The
/// empty line goes exactly before a header that follows earlier output.
pub proof fn law_follow_headers(
    show_headers: bool,
    multiple_files: bool,
    last_printed: Option<usize>,
    i: usize,
)
    ensures
        ({
            let a = header_action(show_headers, multiple_files, last_printed, i);
            &&& !show_headers ==> !a.header
            &&& show_headers && multiple_files ==> a.header
            &&& show_headers && last_printed != Some(i) ==> a.header
            &&& show_headers && !multiple_files && last_printed == Some(i) ==> !a.header
            &&& a.blank_line <==> (a.header && last_printed is Some)
        }),
{
}


/// A file seen shorter than what was printed was truncated: what it now
/// holds is printed again from its start (nothing when it is empty), and
/// the position is its new size. A file seen at the same size prints
/// nothing; a larger one prints exactly from the old position to the size.
pub proof fn law_size_steps(position: nat, size: nat)
    ensures
        size < position ==> size_step(position, size) == if size > 0 {
            (Some(0nat), size)
        } else {
            (None::<nat>, 0nat)
        },
        size == position ==> size_step(position, size) == (None::<nat>, position),
        size > position ==> size_step(position, size) == (Some(position), size),
{
}

} // verus!
