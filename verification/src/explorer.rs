//! The volumes, the index of each, and which one is being walked.
//!
//! One volume is walked at a time; the others wait in a queue. The program walks the
//! volume it is told to, and says when the walk ends.

use crate::delete;
use crate::delete::Mode;
use crate::http::Query;
use crate::listing;
use crate::refusal::Refusal;
use crate::snapshot::Snapshot;
use crate::split;
use crate::text;
use crate::walk::Progress;
use crate::win32::Drive;
use std::sync::Arc;
use vstd::prelude::*;

verus! {

/// How long the end of the program waits for a walk, in milliseconds.
pub const MAX_WAIT_MS: u64 = 3000;

/// Where a volume stands.
#[derive(Clone, Copy, Debug, PartialEq, Eq, Structural)]
pub enum Status {
    Empty,
    Scanning,
    Ready,
    Error,
}

/// A volume, its index where it has one, and how far its walk is.
pub struct DriveState {
    pub info: Drive,
    pub status: Status,
    pub snap: Option<Arc<Snapshot>>,
    pub prog: Progress,
}

pub struct App {
    /// In the order of their letters.
    pub drives: Vec<DriveState>,
    /// The volume that is being walked.
    pub scanning: Option<char>,
    /// The volumes that wait for it.
    pub queue: Vec<char>,
    /// The program runs with administrator rights.
    pub eleve: bool,
    /// The program is about to end.
    pub stopping: bool,
}

pub struct AppView {
    pub drives: Seq<DriveState>,
    pub scanning: Option<char>,
    pub queue: Seq<char>,
    pub eleve: bool,
    pub stopping: bool,
}

impl View for App {
    type V = AppView;

    open spec fn view(&self) -> AppView {
        AppView {
            drives: self.drives@,
            scanning: self.scanning,
            queue: self.queue@,
            eleve: self.eleve,
            stopping: self.stopping,
        }
    }
}

/// The start of a walk.
pub open spec fn at_start() -> Progress {
    Progress { dirs: 0, files: 0, errors: 0, cancel: false }
}

impl AppView {
    /// Letters go up, so each is there once; indexes are well formed; no volume waits
    /// twice, nor while it is being walked; what is being walked is marked so.
    pub open spec fn wf(self) -> bool {
        &&& forall|i: int, j: int|
            0 <= i < j < self.drives.len() ==> (#[trigger] self.drives[i]).info.letter < (
            #[trigger] self.drives[j]).info.letter
        &&& forall|i: int|
            0 <= i < self.drives.len() ==> index_wf(#[trigger] self.drives[i])
        &&& forall|i: int, j: int|
            0 <= i < j < self.queue.len() ==> #[trigger] self.queue[i] != #[trigger] self.queue[j]
        &&& self.scanning matches Some(l) ==> !self.queue.contains(l)
        &&& forall|i: int|
            0 <= i < self.drives.len() && self.scanning == Some(
                (#[trigger] self.drives[i]).info.letter,
            ) ==> self.drives[i].status is Scanning
    }

    /// The volume of a letter stands at place `i`.
    pub open spec fn at(self, l: char, i: int) -> bool {
        0 <= i < self.drives.len() && self.drives[i].info.letter == l
    }

    /// The volume of a letter, where there is one.
    pub open spec fn state(self, l: char) -> Option<DriveState> {
        if exists|i: int| self.at(l, i) {
            Some(self.drives[choose|i: int| self.at(l, i)])
        } else {
            None
        }
    }

    /// The index of a volume.
    pub open spec fn index_of(self, l: char) -> Option<Snapshot> {
        match self.state(l) {
            Some(d) => match d.snap {
                Some(s) => Some(*s),
                None => None,
            },
            None => None,
        }
    }

    /// The volume of a letter is marked as being walked, from the start.
    pub open spec fn marked(self, l: char) -> Seq<DriveState> {
        Seq::new(
            self.drives.len(),
            |i: int|
                if self.drives[i].info.letter == l {
                    DriveState { status: Status::Scanning, prog: at_start(), ..self.drives[i] }
                } else {
                    self.drives[i]
                },
        )
    }

    /// The next volume of the queue goes to be walked, unless one is being walked already
    /// or the program is about to end.
    pub open spec fn pumped(self) -> (AppView, Option<char>) {
        if self.stopping || self.scanning is Some || self.queue.len() == 0 {
            (self, None)
        } else {
            let l = self.queue[0];
            (
                AppView {
                    drives: self.marked(l),
                    scanning: Some(l),
                    queue: self.queue.drop_first(),
                    ..self
                },
                Some(l),
            )
        }
    }

    /// A volume is asked for: it goes at the end of the queue, unless it is there or is
    /// being walked.
    pub open spec fn asked(self, l: char) -> (AppView, Option<char>) {
        if self.scanning == Some(l) {
            (self, None)
        } else if self.queue.contains(l) {
            self.pumped()
        } else {
            AppView { queue: self.queue.push(l), ..self }.pumped()
        }
    }

    /// The volume of a letter has an index, or its walk was cut short and it keeps the
    /// one it had.
    pub open spec fn settled(self, l: char, snap: Option<Arc<Snapshot>>) -> Seq<DriveState> {
        Seq::new(
            self.drives.len(),
            |i: int|
                if self.drives[i].info.letter == l {
                    match snap {
                        Some(s) => DriveState {
                            status: Status::Ready,
                            snap: Some(s),
                            ..self.drives[i]
                        },
                        None => DriveState { status: Status::Empty, ..self.drives[i] },
                    }
                } else {
                    self.drives[i]
                },
        )
    }

    /// The walk of a volume ends, with an index unless it was cut short; the next one
    /// starts.
    pub open spec fn finished(self, l: char, snap: Option<Arc<Snapshot>>) -> (
        AppView,
        Option<char>,
    ) {
        AppView { drives: self.settled(l, snap), scanning: None, ..self }.pumped()
    }

    /// The progress of a volume is noted.
    pub open spec fn noted(self, l: char, dirs: u64, files: u64) -> AppView {
        AppView {
            drives: Seq::new(
                self.drives.len(),
                |i: int|
                    if self.drives[i].info.letter == l {
                        DriveState {
                            prog: Progress { dirs, files, ..self.drives[i].prog },
                            ..self.drives[i]
                        }
                    } else {
                        self.drives[i]
                    },
            ),
            ..self
        }
    }

    /// How far the walk of a volume is.
    pub open spec fn progress(self, l: char) -> Progress {
        match self.state(l) {
            Some(d) => d.prog,
            None => at_start(),
        }
    }

    /// Every walk is told to stop.
    pub open spec fn cancelled(self) -> Seq<DriveState> {
        Seq::new(
            self.drives.len(),
            |i: int|
                DriveState {
                    prog: Progress { cancel: true, ..self.drives[i].prog },
                    ..self.drives[i]
                },
        )
    }

    proof fn lemma_state(self, l: char, i: int)
        requires
            self.wf(),
            self.at(l, i),
        ensures
            self.state(l) == Some(self.drives[i]),
    {
        let j = choose|j: int| self.at(l, j);
        if i < j {
            assert(self.drives[i].info.letter < self.drives[j].info.letter);
        } else if j < i {
            assert(self.drives[j].info.letter < self.drives[i].info.letter);
        }
    }
}

/// The index of a volume is well formed, and there where the volume is ready.
pub open spec fn index_wf(d: DriveState) -> bool {
    &&& d.snap matches Some(s) ==> s.wf()
    &&& d.status is Ready ==> d.snap is Some
}

impl App {
    pub open spec fn wf(self) -> bool {
        self@.wf()
    }

    fn place(&self, letter: char) -> (r: Option<usize>)
        requires
            self.wf(),
        ensures
            match r {
                Some(i) => self@.at(letter, i as int) && self@.state(letter) == Some(
                    self.drives@[i as int],
                ),
                None => self@.state(letter) is None && forall|i: int|
                    !(#[trigger] self@.at(letter, i)),
            },
    {
        let mut i: usize = 0;
        while i < self.drives.len()
            invariant
                self.wf(),
                i <= self.drives@.len(),
                forall|k: int| 0 <= k < i ==> !(#[trigger] self@.at(letter, k)),
            decreases self.drives@.len() - i,
        {
            if self.drives[i].info.letter == letter {
                proof {
                    self@.lemma_state(letter, i as int);
                }
                return Some(i);
            }
            i = i + 1;
        }
        None
    }

    /// Starts the next volume of the queue, where none is being walked. Gives the letter
    /// to walk.
    pub fn pump(&mut self) -> (r: Option<char>)
        requires
            old(self).wf(),
        ensures
            final(self).wf(),
            (final(self)@, r) == old(self)@.pumped(),
    {
        if self.stopping || self.scanning.is_some() || self.queue.len() == 0 {
            return None;
        }
        let ghost v = self@;
        let letter = self.queue[0];
        let place = self.place(letter);
        self.queue.remove(0);
        assert(self.queue@ =~= v.queue.drop_first());
        self.scanning = Some(letter);
        match place {
            Some(i) => {
                self.drives[i].status = Status::Scanning;
                self.drives[i].prog = Progress::new();
            },
            None => {},
        }
        proof {
            lemma_one_letter(v, letter);
            assert forall|i: int| 0 <= i < v.drives.len() implies self.drives@[i] == v.marked(
                letter,
            )[i] by {
                if v.drives[i].info.letter == letter {
                    assert(v.at(letter, i));
                    assert(place == Some(i as usize));
                } else {
                    assert(!v.at(letter, i));
                }
            }
            assert(self.drives@ =~= v.marked(letter));
            assert forall|i: int| 0 <= i < self.drives@.len() implies index_wf(
                #[trigger] self.drives@[i],
            ) by {
                assert(index_wf(v.drives[i]));
            }
            assert forall|i: int, j: int| 0 <= i < j < self.drives@.len() implies (
            #[trigger] self.drives@[i]).info.letter < (#[trigger] self.drives@[j]).info.letter by {
                assert(v.drives[i].info.letter < v.drives[j].info.letter);
            }
            assert(!self.queue@.contains(letter)) by {
                if self.queue@.contains(letter) {
                    let k = choose|k: int| 0 <= k < self.queue@.len() && self.queue@[k] == letter;
                    assert(v.queue[0] != v.queue[k + 1]);
                }
            }
        }
        Some(letter)
    }

    /// Asks for the walk of a volume. Gives the letter to walk, where one is to start.
    pub fn start_scan(&mut self, letter: char) -> (r: Option<char>)
        requires
            old(self).wf(),
        ensures
            final(self).wf(),
            (final(self)@, r) == old(self)@.asked(letter),
    {
        if let Some(l) = self.scanning {
            if l == letter {
                return None;
            }
        }
        let ghost v = self@;
        let mut k: usize = 0;
        while k < self.queue.len()
            invariant
                k <= self.queue@.len(),
                self@ == v,
                v == old(self)@,
                v.wf(),
                v.scanning != Some(letter),
                forall|i: int| 0 <= i < k ==> #[trigger] v.queue[i] != letter,
            decreases self.queue@.len() - k,
        {
            if self.queue[k] == letter {
                assert(v.queue[k as int] == letter);
                return self.pump();
            }
            k = k + 1;
        }
        self.queue.push(letter);
        proof {
            let w = self@;
            assert(w.queue =~= v.queue.push(letter));
            assert forall|i: int, j: int| 0 <= i < j < w.queue.len() implies #[trigger] w.queue[i]
                != #[trigger] w.queue[j] by {
                assert(w.queue[i] == v.queue[i]);
                if j < v.queue.len() {
                    assert(w.queue[j] == v.queue[j]);
                }
            }
            if let Some(l) = w.scanning {
                if w.queue.contains(l) {
                    let i = choose|i: int| 0 <= i < w.queue.len() && w.queue[i] == l;
                    assert(v.queue[i] == l);
                }
            }
            assert(w == (AppView { queue: v.queue.push(letter), ..v }));
        }
        self.pump()
    }

    /// Whether what the walk of a volume gave is to be kept: not where the walk was told to
    /// stop, for a partial index would be a wrong total shown as a measure. To be asked
    /// before the index goes to a file.
    pub fn keeps(&self, letter: char) -> (r: bool)
        requires
            self.wf(),
        ensures
            r == !self@.progress(letter).cancel,
    {
        match self.place(letter) {
            Some(i) => !self.drives[i].prog.cancel,
            None => true,
        }
    }

    /// Takes in the end of the walk of a volume, with the index that it gave. The index of
    /// a walk that was told to stop is not kept. Gives the letter of the next volume to
    /// walk.
    pub fn finished(&mut self, letter: char, snap: Option<Snapshot>) -> (r: Option<char>)
        requires
            old(self).wf(),
            snap matches Some(s) ==> s.wf(),
        ensures
            final(self).wf(),
            if old(self)@.progress(letter).cancel {
                (final(self)@, r) == old(self)@.finished(letter, None)
            } else {
                match snap {
                    Some(s) => exists|a: Arc<Snapshot>|
                        *a == s && (final(self)@, r) == #[trigger] old(self)@.finished(
                            letter,
                            Some(a),
                        ),
                    None => (final(self)@, r) == old(self)@.finished(letter, None),
                }
            },
    {
        let kept = self.keeps(letter);
        let ghost v = self@;
        let place = self.place(letter);
        let shared: Option<Arc<Snapshot>> = match snap {
            Some(s) => if kept {
                Some(Arc::new(s))
            } else {
                None
            },
            None => None,
        };
        let ghost given = shared;
        match place {
            Some(i) => {
                match shared {
                    Some(a) => {
                        self.drives[i].snap = Some(a);
                        self.drives[i].status = Status::Ready;
                    },
                    None => {
                        self.drives[i].status = Status::Empty;
                    },
                }
            },
            None => {},
        }
        self.scanning = None;
        proof {
            lemma_one_letter(v, letter);
            assert forall|i: int| 0 <= i < v.drives.len() implies self.drives@[i] == v.settled(
                letter,
                given,
            )[i] by {
                if v.drives[i].info.letter == letter {
                    assert(v.at(letter, i));
                    assert(place == Some(i as usize));
                } else {
                    assert(!v.at(letter, i));
                }
            }
            assert(self.drives@ =~= v.settled(letter, given));
            let w = self@;
            assert forall|i: int| 0 <= i < w.drives.len() implies index_wf(
                #[trigger] w.drives[i],
            ) by {
                assert(index_wf(v.drives[i]));
            }
            assert forall|i: int, j: int| 0 <= i < j < w.drives.len() implies (
            #[trigger] w.drives[i]).info.letter < (#[trigger] w.drives[j]).info.letter by {
                assert(v.drives[i].info.letter < v.drives[j].info.letter);
            }
            assert(w == (AppView { drives: v.settled(letter, given), scanning: None, ..v }));
        }
        let r = self.pump();
        assert((self@, r) == v.finished(letter, given));
        r
    }

    /// Notes how far the walk of a volume is.
    pub fn note(&mut self, letter: char, dirs: u64, files: u64)
        requires
            old(self).wf(),
        ensures
            final(self).wf(),
            final(self)@ == old(self)@.noted(letter, dirs, files),
    {
        let ghost v = self@;
        let place = self.place(letter);
        match place {
            Some(i) => {
                self.drives[i].prog.dirs = dirs;
                self.drives[i].prog.files = files;
            },
            None => {},
        }
        proof {
            lemma_one_letter(v, letter);
            let w = v.noted(letter, dirs, files);
            assert forall|i: int| 0 <= i < v.drives.len() implies self.drives@[i]
                == w.drives[i] by {
                if v.drives[i].info.letter == letter {
                    assert(v.at(letter, i));
                    assert(place == Some(i as usize));
                } else {
                    assert(!v.at(letter, i));
                }
            }
            assert(self.drives@ =~= w.drives);
            assert forall|i: int| 0 <= i < w.drives.len() implies index_wf(
                #[trigger] w.drives[i],
            ) by {
                assert(index_wf(v.drives[i]));
            }
            assert forall|i: int, j: int| 0 <= i < j < w.drives.len() implies (
            #[trigger] w.drives[i]).info.letter < (#[trigger] w.drives[j]).info.letter by {
                assert(v.drives[i].info.letter < v.drives[j].info.letter);
            }
            assert forall|i: int|
                0 <= i < w.drives.len() && w.scanning == Some((#[trigger] w.drives[i]).info.letter)
                implies w.drives[i].status is Scanning by {
                assert(v.drives[i].status is Scanning);
            }
        }
    }

    /// Asks for the end of the program. While a volume is being walked, it takes `force`:
    /// without it the answer says what would be lost. Once the end is settled no walk
    /// starts any more, the queue is empty, and every walk is told to stop.
    pub fn quit(&mut self, force: bool) -> (r: Result<(), Refusal>)
        requires
            old(self).wf(),
        ensures
            final(self).wf(),
            match r {
                Ok(_) => {
                    &&& old(self)@.scanning is None || force
                    &&& final(self)@ == (AppView {
                        drives: old(self)@.cancelled(),
                        queue: Seq::empty(),
                        stopping: true,
                        ..old(self)@
                    })
                },
                Err(e) => {
                    &&& !force
                    &&& old(self)@.scanning matches Some(l)
                    &&& final(self)@ == old(self)@
                    &&& e matches Refusal::Busy { letter, dirs, files }
                    &&& letter == l
                    &&& dirs == old(self)@.progress(l).dirs
                    &&& files == old(self)@.progress(l).files
                },
            },
    {
        let ghost v = self@;
        if let Some(letter) = self.scanning {
            if !force {
                let (dirs, files) = match self.place(letter) {
                    Some(i) => (self.drives[i].prog.dirs, self.drives[i].prog.files),
                    None => (0, 0),
                };
                return Err(Refusal::Busy { letter, dirs, files });
            }
        }
        self.stopping = true;
        self.queue = Vec::new();
        let mut i: usize = 0;
        while i < self.drives.len()
            invariant
                v == old(self)@,
                v.wf(),
                i <= self.drives@.len() == v.drives.len(),
                self.scanning == v.scanning,
                self.eleve == v.eleve,
                self.stopping,
                self.queue@.len() == 0,
                forall|k: int|
                    0 <= k < v.drives.len() ==> (#[trigger] self.drives@[k]) == if k < i {
                        v.cancelled()[k]
                    } else {
                        v.drives[k]
                    },
            decreases v.drives.len() - i,
        {
            self.drives[i].prog.cancel = true;
            i = i + 1;
        }
        proof {
            assert(self.drives@ =~= v.cancelled());
            assert(self.queue@ =~= Seq::empty());
            let w = self@;
            assert forall|i: int| 0 <= i < w.drives.len() implies index_wf(
                #[trigger] w.drives[i],
            ) by {
                assert(index_wf(v.drives[i]));
            }
            assert forall|i: int, j: int| 0 <= i < j < w.drives.len() implies (
            #[trigger] w.drives[i]).info.letter < (#[trigger] w.drives[j]).info.letter by {
                assert(v.drives[i].info.letter < v.drives[j].info.letter);
            }
            assert forall|i: int|
                0 <= i < w.drives.len() && w.scanning == Some((#[trigger] w.drives[i]).info.letter)
                implies w.drives[i].status is Scanning by {
                assert(v.drives[i].status is Scanning);
            }
        }
        Ok(())
    }

    /// The end of the program is put off while a volume is still being walked, for a walk
    /// that writes its index must not be cut; but not for ever, for a disk that no longer
    /// answers must not keep the program from ending.
    pub fn waits(&self, waited_ms: u64) -> (r: bool)
        ensures
            r == (self@.scanning is Some && waited_ms <= MAX_WAIT_MS),
    {
        self.scanning.is_some() && waited_ms <= MAX_WAIT_MS
    }

    /// Leaves nothing marked as being walked, once the wait for the end of a walk is over.
    pub fn stopped(&mut self)
        requires
            old(self).wf(),
        ensures
            final(self).wf(),
            final(self)@ == (AppView { scanning: None, ..old(self)@ }),
    {
        self.scanning = None;
    }

    /// The index of a volume.
    pub fn snapshot(&self, letter: char) -> (r: Option<Arc<Snapshot>>)
        requires
            self.wf(),
        ensures
            match r {
                Some(s) => self@.index_of(letter) == Some(*s) && s.wf(),
                None => self@.index_of(letter) is None,
            },
    {
        match self.place(letter) {
            Some(i) => {
                assert(index_wf(self.drives@[i as int]));
                match &self.drives[i].snap {
                    Some(s) => Some(share(s)),
                    None => None,
                }
            },
            None => None,
        }
    }

    /// How many folders the index of a volume has; none where there is no index.
    pub fn count_dirs(&self, letter: char) -> (r: usize)
        requires
            self.wf(),
        ensures
            r == match self@.index_of(letter) {
                Some(s) => s.dirs@.len(),
                None => 0,
            },
    {
        match self.snapshot(letter) {
            Some(s) => s.n_dirs(),
            None => 0,
        }
    }

    /// How many files the index of a volume has; none where there is no index.
    pub fn count_files(&self, letter: char) -> (r: usize)
        requires
            self.wf(),
        ensures
            r == match self@.index_of(letter) {
                Some(s) => s.files@.len(),
                None => 0,
            },
    {
        match self.snapshot(letter) {
            Some(s) => s.n_files(),
            None => 0,
        }
    }

    /// The volume that a request names, by the first character of a text, and its index.
    pub fn index(&self, drive: Option<&str>) -> (r: Result<(char, Arc<Snapshot>), Refusal>)
        requires
            self.wf(),
        ensures
            match named(drive) {
                None => r matches Err(e) && e is DriveMissing,
                Some(l) => match self@.index_of(l) {
                    None => r matches Err(e) && e is NotScanned,
                    Some(s) => r matches Ok(p) && p.0 == l && *p.1 == s && s.wf(),
                },
            },
    {
        let letter = match drive {
            Some(d) => match split::letter(d) {
                Some(l) => l,
                None => { return Err(Refusal::DriveMissing); },
            },
            None => { return Err(Refusal::DriveMissing); },
        };
        match self.snapshot(letter) {
            Some(s) => Ok((letter, s)),
            None => Err(Refusal::NotScanned),
        }
    }

    /// The folder or the file that a request asks to open: the index it is in, its number,
    /// and whether it is a file.
    pub fn open(&self, q: &Query) -> (r: Result<(Arc<Snapshot>, u32, bool), Refusal>)
        requires
            self.wf(),
            q.wf(),
        ensures
            ({
                let letter = match q.value("drive"@) {
                    Some(d) => split::letter_in(d),
                    None => None,
                };
                let id = match q.value("id"@) {
                    Some(t) => text::number(t, u32::MAX as nat),
                    None => None,
                };
                let file = q.value("kind"@) == Some("file"@);
                match (letter, id) {
                    (None, _) => r matches Err(e) && e is DriveMissing,
                    (Some(_), None) => r matches Err(e) && e is BadId,
                    (Some(l), Some(n)) => match self@.index_of(l) {
                        None => r matches Err(e) && e is NotScanned,
                        Some(s) => if file && n >= s.files@.len() {
                            r matches Err(e) && e is FileOutOfRange
                        } else if !file && n >= s.dirs@.len() {
                            r matches Err(e) && e is DirOutOfRange
                        } else {
                            r matches Ok(p) && *p.0 == s && p.1 == n && p.2 == file
                        },
                    },
                }
            }),
    {
        let letter = match q.get("drive") {
            Some(d) => match split::letter(d) {
                Some(l) => l,
                None => { return Err(Refusal::DriveMissing); },
            },
            None => { return Err(Refusal::DriveMissing); },
        };
        let id = match q.get("id") {
            Some(t) => match text::parse_number(t, u32::MAX as u64) {
                Some(n) => n as u32,
                None => { return Err(Refusal::BadId); },
            },
            None => { return Err(Refusal::BadId); },
        };
        let file = match q.get("kind") {
            Some(k) => text::str_eq(k, "file"),
            None => false,
        };
        let s = match self.snapshot(letter) {
            Some(s) => s,
            None => { return Err(Refusal::NotScanned); },
        };
        match listing::in_bounds(&s, id, file) {
            Ok(()) => Ok((s, id, file)),
            Err(e) => Err(e),
        }
    }

    /// What a request to delete is about: the volume, its index, and how to delete.
    pub fn delete(&self, drive: &str, word: &str) -> (r: Result<
        (char, Arc<Snapshot>, Mode),
        Refusal,
    >)
        requires
            self.wf(),
        ensures
            match split::letter_in(drive@) {
                None => r matches Err(e) && e is DriveMissing,
                Some(l) => match self@.index_of(l) {
                    None => r matches Err(e) && e is NotScanned,
                    Some(s) => if let Some(m) = delete::mode_in(word@) {
                        r matches Ok(p) && p.0 == l && *p.1 == s && s.wf() && p.2 == m
                    } else {
                        r matches Err(e) && e is UnknownMode
                    },
                },
            },
    {
        match self.index(Some(drive)) {
            Ok((l, s)) => match delete::mode(word) {
                Ok(m) => Ok((l, s, m)),
                Err(e) => Err(e),
            },
            Err(e) => Err(e),
        }
    }

    /// Asks for the walk of the volume that the path of a request names: the first
    /// character behind its last slash. Gives the letter to walk, where one is to start.
    pub fn scan_request(&mut self, path: &str) -> (r: Result<Option<char>, Refusal>)
        requires
            old(self).wf(),
        ensures
            final(self).wf(),
            r is Err ==> final(self)@ == old(self)@,
            if old(self)@.stopping {
                r matches Err(e) && e is Stopping
            } else {
                match split::letter_in(split::behind_last(path@, '/')) {
                    None => r matches Err(e) && e is LetterMissing,
                    Some(l) => if old(self)@.state(l) is None {
                        r matches Err(e) && e is UnknownDrive
                    } else {
                        r matches Ok(next) && (final(self)@, next) == old(self)@.asked(l)
                    },
                }
            },
    {
        if self.stopping {
            return Err(Refusal::Stopping);
        }
        let parts = split::split(path, '/');
        let last = parts.len() - 1;
        assert(split::texts(parts@).last() == parts@[last as int]@);
        let letter = match split::letter(parts[last].as_str()) {
            Some(l) => l,
            None => { return Err(Refusal::LetterMissing); },
        };
        if self.place(letter).is_none() {
            return Err(Refusal::UnknownDrive);
        }
        Ok(self.start_scan(letter))
    }
}

/// Calls `Arc::clone`. Claimed of it: the result points to the same value.
#[verifier::external_body]
fn share(s: &Arc<Snapshot>) -> (r: Arc<Snapshot>)
    ensures
        *r == **s,
{
    s.clone()
}

/// The letter that a request names.
pub open spec fn named(drive: Option<&str>) -> Option<char> {
    match drive {
        Some(d) => split::letter_in(d@),
        None => None,
    }
}

/// A letter stands at one place only.
proof fn lemma_one_letter(v: AppView, l: char)
    requires
        v.wf(),
    ensures
        forall|i: int, j: int| #[trigger] v.at(l, i) && #[trigger] v.at(l, j) ==> i == j,
{
    assert forall|i: int, j: int| #[trigger] v.at(l, i) && #[trigger] v.at(l, j) implies i == j by {
        if i < j {
            assert(v.drives[i].info.letter < v.drives[j].info.letter);
        } else if j < i {
            assert(v.drives[j].info.letter < v.drives[i].info.letter);
        }
    }
}

// ---------------------------- the start ----------------------------

/// The place of the last volume of a letter, from place `k` on.
pub open spec fn last_at(ds: Seq<Drive>, k: int, l: char) -> Option<int>
    decreases ds.len() - k,
{
    if k >= ds.len() {
        None
    } else {
        match last_at(ds, k + 1, l) {
            Some(i) => Some(i),
            None => if ds[k].letter == l {
                Some(k)
            } else {
                None
            },
        }
    }
}

proof fn lemma_last_at(ds: Seq<Drive>, k: int, l: char)
    requires
        0 <= k <= ds.len(),
    ensures
        last_at(ds, k, l) matches Some(i) ==> k <= i < ds.len() && ds[i].letter == l,
    decreases ds.len() - k,
{
    if k < ds.len() {
        lemma_last_at(ds, k + 1, l);
    }
}

/// A volume as it is at the start: ready where an index of it was kept.
pub open spec fn is_fresh(d: DriveState, info: Drive, kept: Option<Snapshot>) -> bool {
    &&& d.info == info
    &&& d.prog == at_start()
    &&& match kept {
        Some(s) => d.status is Ready && (d.snap matches Some(a) && *a == s),
        None => d.status is Empty && d.snap is None,
    }
}

/// The letters of the volumes without an index, among the first `k`.
pub open spec fn waiting(ds: Seq<DriveState>, k: int) -> Seq<char>
    decreases k,
{
    if k <= 0 {
        Seq::empty()
    } else if ds[k - 1].status is Empty {
        waiting(ds, k - 1).push(ds[k - 1].info.letter)
    } else {
        waiting(ds, k - 1)
    }
}

proof fn lemma_waiting(ds: Seq<DriveState>, k: int)
    requires
        0 <= k <= ds.len(),
        forall|i: int, j: int|
            0 <= i < j < ds.len() ==> (#[trigger] ds[i]).info.letter < (
            #[trigger] ds[j]).info.letter,
    ensures
        forall|i: int| 0 <= i < waiting(ds, k).len() ==> from_first(ds, k, #[trigger] waiting(ds, k)[i]),
        forall|i: int, j: int|
            0 <= i < j < waiting(ds, k).len() ==> #[trigger] waiting(ds, k)[i] != #[trigger] waiting(
                ds,
                k,
            )[j],
    decreases k,
{
    if k > 0 {
        lemma_waiting(ds, k - 1);
        let w = waiting(ds, k - 1);
        assert forall|i: int| 0 <= i < w.len() implies from_first(ds, k, #[trigger] w[i]) by {
            assert(from_first(ds, k - 1, w[i]));
        }
        assert forall|i: int| 0 <= i < w.len() implies #[trigger] w[i] != ds[k - 1].info.letter by {
            assert(from_first(ds, k - 1, w[i]));
        }
        if ds[k - 1].status is Empty {
            assert(from_first(ds, k, ds[k - 1].info.letter));
        }
    }
}

/// The letter is that of one of the first `k` volumes.
spec fn from_first(ds: Seq<DriveState>, k: int, l: char) -> bool {
    exists|i: int| 0 <= i < k && (#[trigger] ds[i]).info.letter == l
}

impl App {
    /// The volumes as they are at the start, each with the index that was kept of it.
    /// Those without one wait to be walked, in the order of their letters.
    pub fn new(drives: Vec<Drive>, kept: Vec<Option<Snapshot>>, eleve: bool) -> (r: App)
        requires
            kept@.len() == drives@.len(),
            forall|i: int| 0 <= i < kept@.len() ==> kept_wf(#[trigger] kept@[i]),
        ensures
            r.wf(),
            forall|l: char|
                match last_at(drives@, 0, l) {
                    Some(i) => (#[trigger] r@.state(l)) matches Some(d) && is_fresh(
                        d,
                        drives@[i],
                        kept@[i],
                    ),
                    None => r@.state(l) is None,
                },
            r.scanning is None,
            r.queue@ == waiting(r.drives@, r.drives@.len() as int),
            r.eleve == eleve,
            !r.stopping,
    {
        let ghost ds = drives@;
        let ghost ks = kept@;
        let mut drives = drives;
        let mut kept = kept;
        let mut app = App {
            drives: Vec::new(),
            scanning: None,
            queue: Vec::new(),
            eleve,
            stopping: false,
        };
        while drives.len() > 0
            invariant
                ks.len() == ds.len(),
                drives@.len() <= ds.len(),
                drives@ == ds.take(drives@.len() as int),
                kept@ == ks.take(drives@.len() as int),
                kept@.len() == drives@.len(),
                forall|i: int| 0 <= i < ks.len() ==> kept_wf(#[trigger] ks[i]),
                app.wf(),
                app.queue@.len() == 0,
                app.scanning is None,
                app.eleve == eleve,
                !app.stopping,
                forall|l: char|
                    match last_at(ds, drives@.len() as int, l) {
                        Some(i) => (#[trigger] app@.state(l)) matches Some(d) && is_fresh(
                            d,
                            ds[i],
                            ks[i],
                        ),
                        None => app@.state(l) is None,
                    },
            decreases drives@.len(),
        {
            let ghost n = drives@.len() - 1;
            let info = drives.pop().unwrap();
            let snap = kept.pop().unwrap();
            assert(info == ds[n]);
            assert(snap == ks[n]);
            assert(drives@ =~= ds.take(n));
            assert(kept@ =~= ks.take(n));
            let letter = info.letter;
            let ghost v = app@;
            if app.place(letter).is_none() {
                let status = match &snap {
                    Some(_) => Status::Ready,
                    None => Status::Empty,
                };
                let shared: Option<Arc<Snapshot>> = match snap {
                    Some(s) => Some(Arc::new(s)),
                    None => None,
                };
                assert(kept_wf(ks[n]));
                let d = DriveState { info, status, snap: shared, prog: Progress::new() };
                app.insert(d);
            }
            proof {
                assert forall|l: char|
                    match last_at(ds, n, l) {
                        Some(i) => (#[trigger] app@.state(l)) matches Some(d) && is_fresh(
                            d,
                            ds[i],
                            ks[i],
                        ),
                        None => app@.state(l) is None,
                    } by {
                    lemma_last_at(ds, n, l);
                    let before = v.state(l);
                }
            }
        }
        let mut queue: Vec<char> = Vec::new();
        let mut k: usize = 0;
        while k < app.drives.len()
            invariant
                k <= app.drives@.len(),
                queue@ == waiting(app.drives@, k as int),
            decreases app.drives@.len() - k,
        {
            match app.drives[k].status {
                Status::Empty => {
                    queue.push(app.drives[k].info.letter);
                },
                _ => {},
            }
            k = k + 1;
        }
        let ghost v = app@;
        proof {
            lemma_waiting(app.drives@, app.drives@.len() as int);
        }
        app.queue = queue;
        proof {
            assert forall|l: char| #[trigger] app@.state(l) == v.state(l) by {
                assert forall|i: int| #[trigger] app@.at(l, i) == v.at(l, i) by {}
                if exists|i: int| v.at(l, i) {
                    let i = choose|i: int| v.at(l, i);
                    v.lemma_state(l, i);
                    app@.lemma_state(l, i);
                }
            }
        }
        app
    }

    /// Puts a volume at the place of its letter.
    fn insert(&mut self, d: DriveState)
        requires
            old(self).wf(),
            old(self).scanning is None,
            index_wf(d),
            old(self)@.state(d.info.letter) is None,
        ensures
            final(self).wf(),
            final(self).scanning == old(self).scanning,
            final(self).queue@ == old(self).queue@,
            final(self).eleve == old(self).eleve,
            final(self).stopping == old(self).stopping,
            final(self)@.state(d.info.letter) == Some(d),
            forall|l: char|
                l != d.info.letter ==> #[trigger] final(self)@.state(l) == old(self)@.state(l),
    {
        let ghost v = self@;
        let letter = d.info.letter;
        let mut k: usize = 0;
        while k < self.drives.len() && self.drives[k].info.letter < letter
            invariant
                k <= self.drives@.len(),
                self@ == v,
                forall|i: int| 0 <= i < k ==> (#[trigger] v.drives[i]).info.letter < letter,
            decreases self.drives@.len() - k,
        {
            k = k + 1;
        }
        proof {
            assert forall|i: int| k <= i < v.drives.len() implies letter < (
            #[trigger] v.drives[i]).info.letter by {
                if i > k {
                    assert(v.drives[k as int].info.letter < v.drives[i].info.letter);
                }
                assert(!v.at(letter, k as int));
            }
        }
        self.drives.insert(k, d);
        proof {
            let w = self@;
            let at = k as int;
            assert forall|i: int| 0 <= i < w.drives.len() implies (#[trigger] w.drives[i]) == if i
                < at {
                v.drives[i]
            } else if i == at {
                d
            } else {
                v.drives[i - 1]
            } by {}
            assert forall|i: int, j: int| 0 <= i < j < w.drives.len() implies (
            #[trigger] w.drives[i]).info.letter < (#[trigger] w.drives[j]).info.letter by {
                let a = if i < at {
                    i
                } else {
                    i - 1
                };
                let b = if j < at {
                    j
                } else {
                    j - 1
                };
                if i != at && j != at {
                    assert(v.drives[a].info.letter < v.drives[b].info.letter);
                }
            }
            assert forall|i: int| 0 <= i < w.drives.len() implies index_wf(
                #[trigger] w.drives[i],
            ) by {
                if i < at {
                    assert(index_wf(v.drives[i]));
                } else if i > at {
                    assert(index_wf(v.drives[i - 1]));
                }
            }
            assert(w.queue == v.queue && v.wf());
            assert(w.wf());
            w.lemma_state(letter, at);
            assert forall|l: char| l != letter implies #[trigger] w.state(l) == v.state(l) by {
                if exists|i: int| v.at(l, i) {
                    let i = choose|i: int| v.at(l, i);
                    v.lemma_state(l, i);
                    let j = if i < at {
                        i
                    } else {
                        i + 1
                    };
                    assert(w.drives[j] == v.drives[i]);
                    assert(w.at(l, j));
                    w.lemma_state(l, j);
                } else if exists|j: int| w.at(l, j) {
                    let j = choose|j: int| w.at(l, j);
                    let i = if j < at {
                        j
                    } else {
                        j - 1
                    };
                    assert(v.at(l, i));
                }
            }
        }
    }
}

/// An index that was kept is well formed.
pub open spec fn kept_wf(s: Option<Snapshot>) -> bool {
    s matches Some(x) ==> x.wf()
}

// ---------------------------- what is shown ----------------------------

/// What is shown of a volume.
#[derive(Debug)]
pub struct DriveJson {
    pub letter: String,
    pub label: String,
    pub fs: String,
    pub total: u64,
    pub free: u64,
    pub status: Status,
    pub n_dirs: u64,
    pub n_files: u64,
    pub root_size: u64,
    pub elapsed_ms: u64,
    pub finished_ms: i64,
    /// Folders that could not be read. Each of them hides a whole subtree, so that
    /// `root_size` is a floor and no measure.
    pub unreadable: u64,
    pub unreadable_droits: u64,
    pub skipped: u64,
    pub dirs: u64,
    pub files: u64,
}

/// What is shown of all the volumes.
#[derive(Debug)]
pub struct StateJson {
    pub drives: Vec<DriveJson>,
    pub scanning: Option<String>,
    pub eleve: bool,
}

/// The line of a volume.
pub open spec fn is_drive_line(j: DriveJson, d: DriveState) -> bool {
    &&& j.letter@ == seq![d.info.letter]
    &&& j.label@ == d.info.label@
    &&& j.fs@ == d.info.fs@
    &&& j.total == d.info.total
    &&& j.free == d.info.free
    &&& j.status == d.status
    &&& j.dirs == d.prog.dirs
    &&& j.files == d.prog.files
    &&& match d.snap {
        Some(s) => {
            &&& j.n_dirs == s.dirs@.len()
            &&& j.n_files == s.files@.len()
            &&& j.root_size == s.size@[0]
            &&& j.elapsed_ms == s.elapsed_ms
            &&& j.finished_ms == s.finished_ms
            &&& j.unreadable == s.unreadable_total
            &&& j.unreadable_droits == s.unreadable_droits
            &&& j.skipped == s.skipped
        },
        None => {
            &&& j.n_dirs == 0
            &&& j.n_files == 0
            &&& j.root_size == 0
            &&& j.elapsed_ms == 0
            &&& j.finished_ms == 0
            &&& j.unreadable == 0
            &&& j.unreadable_droits == 0
            &&& j.skipped == 0
        },
    }
}

/// The index of a volume has a root.
pub open spec fn has_root(d: DriveState) -> bool {
    d.snap matches Some(s) ==> s.dirs@.len() > 0
}

fn one_letter(c: char) -> (r: String)
    ensures
        r@ == seq![c],
{
    let mut s = String::new();
    s.push(c);
    assert(s@ =~= seq![c]);
    s
}

fn drive_line(d: &DriveState) -> (j: DriveJson)
    requires
        index_wf(*d),
        has_root(*d),
    ensures
        is_drive_line(j, *d),
{
    let mut j = DriveJson {
        letter: one_letter(d.info.letter),
        label: d.info.label.clone(),
        fs: d.info.fs.clone(),
        total: d.info.total,
        free: d.info.free,
        status: d.status,
        n_dirs: 0,
        n_files: 0,
        root_size: 0,
        elapsed_ms: 0,
        finished_ms: 0,
        unreadable: 0,
        unreadable_droits: 0,
        skipped: 0,
        dirs: d.prog.dirs,
        files: d.prog.files,
    };
    match &d.snap {
        Some(s) => {
            j.n_dirs = s.n_dirs() as u64;
            j.n_files = s.n_files() as u64;
            j.root_size = s.size[0];
            j.elapsed_ms = s.elapsed_ms;
            j.finished_ms = s.finished_ms;
            j.unreadable = s.unreadable_total;
            j.unreadable_droits = s.unreadable_droits;
            j.skipped = s.skipped;
        },
        None => {},
    }
    j
}

impl App {
    /// What is shown of all the volumes, in the order of their letters.
    pub fn state_json(&self) -> (r: StateJson)
        requires
            self.wf(),
            forall|i: int| 0 <= i < self.drives@.len() ==> has_root(#[trigger] self.drives@[i]),
        ensures
            r.drives@.len() == self.drives@.len(),
            forall|i: int|
                0 <= i < r.drives@.len() ==> is_drive_line(
                    #[trigger] r.drives@[i],
                    self.drives@[i],
                ),
            text::text_in(r.scanning) == match self.scanning {
                Some(l) => Some(seq![l]),
                None => None,
            },
            r.eleve == self.eleve,
    {
        let mut out: Vec<DriveJson> = Vec::new();
        let mut i: usize = 0;
        while i < self.drives.len()
            invariant
                self.wf(),
                forall|k: int|
                    0 <= k < self.drives@.len() ==> has_root(#[trigger] self.drives@[k]),
                i <= self.drives@.len(),
                out@.len() == i,
                forall|k: int|
                    0 <= k < i ==> is_drive_line(#[trigger] out@[k], self.drives@[k]),
            decreases self.drives@.len() - i,
        {
            assert(has_root(self.drives@[i as int]));
            assert(index_wf(self@.drives[i as int]));
            let j = drive_line(&self.drives[i]);
            out.push(j);
            i = i + 1;
        }
        let scanning = match self.scanning {
            Some(l) => Some(one_letter(l)),
            None => None,
        };
        StateJson { drives: out, scanning, eleve: self.eleve }
    }
}

// ---------------------------- laws ----------------------------

/// Law: while a volume is being walked no other one starts.
pub proof fn law_one_walk_at_a_time(v: AppView, l: char)
    requires
        v.scanning is Some,
    ensures
        v.pumped() == (v, None::<char>),
        v.asked(l).1 is None,
        v.asked(l).0.scanning == v.scanning,
{
}

/// Law: once the end of the program is settled no walk starts any more.
pub proof fn law_no_walk_while_stopping(v: AppView, l: char, snap: Option<Arc<Snapshot>>)
    requires
        v.stopping,
    ensures
        v.pumped().1 is None,
        v.asked(l).1 is None,
        v.finished(l, snap).1 is None,
        v.finished(l, snap).0.stopping,
{
}

/// Law: a walk that was cut short changes no index: every volume keeps the one it had.
pub proof fn law_interrupted_keeps_index(v: AppView, l: char, k: char)
    requires
        v.wf(),
    ensures
        v.finished(l, None).0.index_of(k) == v.index_of(k),
{
    let w = v.finished(l, None).0;
    assert forall|i: int| #[trigger] w.at(k, i) == v.at(k, i) by {}
    assert forall|i: int| 0 <= i < v.drives.len() implies (#[trigger] w.drives[i]).snap
        == v.drives[i].snap by {}
    lemma_one_letter(v, k);
    if exists|i: int| v.at(k, i) {
        let i = choose|i: int| v.at(k, i);
        let j = choose|j: int| w.at(k, j);
        assert(w.at(k, i));
        assert(v.at(k, j));
    }
}

/// Law: volumes are walked in the order in which they were asked for: one more goes
/// behind those that wait, and none waits twice.
pub proof fn law_first_asked_first_walked(v: AppView, l: char)
    requires
        v.wf(),
        v.scanning is Some,
    ensures
        v.asked(l).0.queue == if v.scanning == Some(l) || v.queue.contains(l) {
            v.queue
        } else {
            v.queue.push(l)
        },
{
}

/// Law: once the end of the program is settled, every walk under way is one that was told
/// to stop, so that nothing of it is kept.
pub proof fn law_stop_reaches_every_walk(v: AppView, l: char)
    requires
        v.wf(),
        v.state(l) is Some,
    ensures
        (AppView { drives: v.cancelled(), queue: Seq::empty(), stopping: true, ..v }).progress(
            l,
        ).cancel,
{
    let w = AppView { drives: v.cancelled(), queue: Seq::empty(), stopping: true, ..v };
    assert forall|i: int| #[trigger] w.at(l, i) == v.at(l, i) by {}
    let i = choose|i: int| v.at(l, i);
    assert(v.at(l, i));
    assert(w.at(l, i));
    let j = choose|j: int| w.at(l, j);
    assert(w.drives[j].prog.cancel);
}

/// Law: a volume that was asked for, while nothing is being walked and nothing waits, is
/// the one that is walked.
pub proof fn law_asked_is_walked(v: AppView, l: char)
    requires
        !v.stopping,
        v.scanning is None,
        v.queue.len() == 0,
    ensures
        v.asked(l).1 == Some(l),
        v.asked(l).0.scanning == Some(l),
        v.asked(l).0.queue.len() == 0,
{
}

} // verus!
