use vstd::prelude::*;
use vstd::string::StringExecFns;

use crate::args::CGArgs;

verus! {

/// Accumulated measurements of one named timer. Times are in nanoseconds.
#[derive(Debug, Clone, Copy, PartialEq, Eq, Structural)]
pub struct TimerData {
    /// When the running measurement started, if one is running.
    pub start_time: Option<u64>,
    /// Total measured time.
    pub elapsed: u64,
    /// Number of measurements.
    pub count: u64,
}

impl TimerData {
    pub fn new() -> (r: TimerData)
        ensures
            r.start_time is None,
            r.elapsed == 0,
            r.count == 0,
    {
        TimerData { start_time: None, elapsed: 0, count: 0 }
    }
}

/// One named timer.
#[derive(Debug)]
pub struct TimerEntry {
    pub name: String,
    pub data: TimerData,
}

/// A set of named timers and the file their report goes to.
#[derive(Debug)]
pub struct Timer {
    pub timers: Vec<TimerEntry>,
    pub output_file: Option<String>,
}

/// `x + y`, capped at `u64::MAX`.
pub open spec fn sat64(x: int) -> u64 {
    if x > u64::MAX {
        u64::MAX
    } else if x < 0 {
        0
    } else {
        x as u64
    }
}

fn add_capped(a: u64, b: u64) -> (r: u64)
    ensures
        r == sat64(a + b),
{
    if a > u64::MAX - b {
        u64::MAX
    } else {
        a + b
    }
}

/// `file` joined to directory `dir` as a path join does with a relative file:
/// the file alone when `dir` is empty, appended directly when `dir` ends in `/`,
/// else appended after a `/`.
pub open spec fn joined_path(dir: Seq<char>, file: Seq<char>) -> Seq<char> {
    if dir.len() == 0 {
        file
    } else if dir.last() == '/' {
        dir + file
    } else {
        dir + seq!['/'] + file
    }
}

/// Relies on `str::ends_with` with a `char` pattern: whether the last
/// character of `s` is `c`.
#[verifier::external_body]
fn ends_with_char(s: &str, c: char) -> (r: bool)
    ensures
        r == (s@.len() > 0 && s@.last() == c),
{
    s.ends_with(c)
}

/// Joins the relative file name `file` to the directory `dir`.
pub fn join_path(dir: String, file: &str) -> (r: String)
    ensures
        r@ == joined_path(dir@, file@),
{
    if dir.as_str().is_empty() {
        return file.to_owned();
    }
    let mut d = dir;
    if !ends_with_char(d.as_str(), '/') {
        d.append("/");
        proof {
            reveal_strlit("/");
        }
    }
    d.append(file);
    proof {
        reveal_strlit("/");
        assert(dir@ + seq!['/'] + file@ =~= dir@ + "/"@ + file@);
    }
    d
}

impl Timer {
    /// No two timers share a name.
    pub open spec fn wf(self) -> bool {
        forall|i: int, j: int|
            0 <= i < j < self.timers@.len() ==> self.timers@[i].name@ != self.timers@[j].name@
    }

    /// The measurements of the timer called `name`, if there is one.
    pub open spec fn data_of(self, name: Seq<char>) -> Option<TimerData> {
        if exists|i: int| 0 <= i < self.timers@.len() && self.timers@[i].name@ == name {
            Some(
                self.timers@[choose|i: int|
                    0 <= i < self.timers@.len() && self.timers@[i].name@ == name].data,
            )
        } else {
            None
        }
    }

    /// `other` differs from `self` at most in the timer called `name`.
    pub open spec fn same_except(self, other: Timer, name: Seq<char>) -> bool {
        &&& other.output_file == self.output_file
        &&& forall|n: Seq<char>| n != name ==> #[trigger] other.data_of(n) == self.data_of(n)
    }

    /// Whether no two timers share a name.
    pub fn is_wf(&self) -> (r: bool)
        ensures
            r == self.wf(),
    {
        let n = self.timers.len();
        let mut i: usize = 0;
        while i < n
            invariant
                n == self.timers@.len(),
                i <= n,
                forall|a: int, b: int| 0 <= a < b < n && a < i ==> self.timers@[a].name@ != self.timers@[b].name@,
            decreases n - i,
        {
            let mut j: usize = i + 1;
            while j < n
                invariant
                    n == self.timers@.len(),
                    i < n,
                    i < j <= n,
                    forall|a: int, b: int| 0 <= a < b < n && a < i ==> self.timers@[a].name@ != self.timers@[b].name@,
                    forall|b: int| i < b < j ==> self.timers@[i as int].name@ != self.timers@[b].name@,
                decreases n - j,
            {
                if self.timers[i].name == self.timers[j].name {
                    return false;
                }
                j += 1;
            }
            i += 1;
        }
        true
    }

    pub fn new() -> (r: Timer)
        ensures
            r.wf(),
            r.output_file is None,
            forall|n: Seq<char>| #[trigger] r.data_of(n) is None,
    {
        Timer { timers: Vec::new(), output_file: None }
    }

    proof fn lemma_data_at(self, i: int)
        requires
            self.wf(),
            0 <= i < self.timers@.len(),
        ensures
            self.data_of(self.timers@[i].name@) == Some(self.timers@[i].data),
    {
        let n = self.timers@[i].name@;
        let j = choose|j: int| 0 <= j < self.timers@.len() && self.timers@[j].name@ == n;
        if j < i {
            assert(self.timers@[j].name@ != self.timers@[i].name@);
        } else if j > i {
            assert(self.timers@[i].name@ != self.timers@[j].name@);
        }
    }

    /// Index of the timer called `name`.
    fn position(&self, name: &str) -> (r: Option<usize>)
        requires
            self.wf(),
        ensures
            r is Some ==> r.unwrap() < self.timers@.len() && self.timers@[r.unwrap() as int].name@
                == name@ && self.data_of(name@) == Some(self.timers@[r.unwrap() as int].data),
            r is None ==> self.data_of(name@) is None && forall|i: int|
                0 <= i < self.timers@.len() ==> self.timers@[i].name@ != name@,
    {
        let key = name.to_owned();
        let mut i: usize = 0;
        while i < self.timers.len()
            invariant
                self.wf(),
                key@ == name@,
                i <= self.timers@.len(),
                forall|j: int| 0 <= j < i ==> self.timers@[j].name@ != name@,
            decreases self.timers@.len() - i,
        {
            if self.timers[i].name == key {
                proof {
                    self.lemma_data_at(i as int);
                }
                return Some(i);
            }
            i += 1;
        }
        None
    }

    /// Replaces the measurements of timer `i`.
    fn put(&mut self, i: usize, data: TimerData)
        requires
            old(self).wf(),
            i < old(self).timers@.len(),
        ensures
            final(self).wf(),
            final(self).timers@.len() == old(self).timers@.len(),
            old(self).same_except(*final(self), old(self).timers@[i as int].name@),
            final(self).data_of(old(self).timers@[i as int].name@) == Some(data),
    {
        let ghost before = *self;
        let name = self.timers[i].name.clone();
        self.timers.set(i, TimerEntry { name, data });
        proof {
            let after = *self;
            let key = before.timers@[i as int].name@;
            assert forall|a: int, b: int| 0 <= a < b < after.timers@.len() implies after.timers@[a].name@
                != after.timers@[b].name@ by {
                assert(before.timers@[a].name@ != before.timers@[b].name@);
            }
            after.lemma_data_at(i as int);
            assert forall|n: Seq<char>| n != key implies #[trigger] after.data_of(n) == before.data_of(n) by {
                if exists|j: int| 0 <= j < before.timers@.len() && before.timers@[j].name@ == n {
                    let j = choose|j: int| 0 <= j < before.timers@.len() && before.timers@[j].name@ == n;
                    before.lemma_data_at(j);
                    after.lemma_data_at(j);
                } else {
                    assert forall|j: int| 0 <= j < after.timers@.len() implies after.timers@[j].name@ != n by {
                        assert(before.timers@[j].name@ == after.timers@[j].name@);
                    }
                }
            }
        }
    }

    /// Adds a timer called `name`, which has none yet.
    fn add(&mut self, name: &str, data: TimerData)
        requires
            old(self).wf(),
            old(self).data_of(name@) is None,
        ensures
            final(self).wf(),
            old(self).same_except(*final(self), name@),
            final(self).data_of(name@) == Some(data),
    {
        let ghost before = *self;
        proof {
            assert forall|j: int| 0 <= j < before.timers@.len() implies before.timers@[j].name@ != name@ by {
                if before.timers@[j].name@ == name@ {
                    assert(exists|k: int| 0 <= k < before.timers@.len() && before.timers@[k].name@ == name@);
                }
            }
        }
        self.timers.push(TimerEntry { name: name.to_owned(), data });
        proof {
            let after = *self;
            let n0 = before.timers@.len() as int;
            assert forall|a: int, b: int| 0 <= a < b < after.timers@.len() implies after.timers@[a].name@
                != after.timers@[b].name@ by {
                assert(after.timers@[a] == before.timers@[a]);
                if b < n0 {
                    assert(after.timers@[b] == before.timers@[b]);
                }
            }
            after.lemma_data_at(n0);
            assert forall|n: Seq<char>| n != name@ implies #[trigger] after.data_of(n) == before.data_of(n) by {
                if exists|j: int| 0 <= j < before.timers@.len() && before.timers@[j].name@ == n {
                    let j = choose|j: int| 0 <= j < before.timers@.len() && before.timers@[j].name@ == n;
                    before.lemma_data_at(j);
                    assert(after.timers@[j] == before.timers@[j]);
                    after.lemma_data_at(j);
                } else {
                    assert forall|j: int| 0 <= j < after.timers@.len() implies after.timers@[j].name@ != n by {
                        if j < n0 {
                            assert(after.timers@[j] == before.timers@[j]);
                        }
                    }
                }
            }
        }
    }

    /// Sets the file the timer report goes to.
    pub fn set_output_file(&mut self, file_path: &str)
        ensures
            final(self).timers@ == old(self).timers@,
            final(self).output_file is Some,
            final(self).output_file.unwrap()@ == file_path@,
    {
        self.output_file = Some(file_path.to_owned());
    }

    /// Sets the report file from the options: the timer output if given, else
    /// `cg_timing.txt` joined to the output directory (`./target` by default)
    /// as a path join does: alone when the directory is empty, with no second
    /// `/` when the directory already ends in one.
    pub fn init(&mut self, plugin_args: &CGArgs)
        ensures
            final(self).timers@ == old(self).timers@,
            final(self).output_file is Some,
            plugin_args.timer_output is Some ==> final(self).output_file.unwrap()@
                == plugin_args.timer_output.unwrap()@,
            plugin_args.timer_output is None ==> final(self).output_file.unwrap()@ == joined_path(
                match plugin_args.output_dir {
                    Some(d) => d@,
                    None => "./target"@,
                },
                "cg_timing.txt"@,
            ),
            plugin_args.timer_output is None && plugin_args.output_dir is None ==> final(self).output_file.unwrap()@ == "./target/cg_timing.txt"@,
    {
        let path = match &plugin_args.timer_output {
            Some(p) => p.clone(),
            None => {
                let dir = match &plugin_args.output_dir {
                    Some(d) => d.clone(),
                    None => "./target".to_owned(),
                };
                join_path(dir, "cg_timing.txt")
            },
        };
        proof {
            reveal_strlit("./target");
            reveal_strlit("cg_timing.txt");
            reveal_strlit("./target/cg_timing.txt");
            let d = "./target"@;
            assert(d.len() > 0 && d.last() != '/');
            assert(d + seq!['/'] + "cg_timing.txt"@ =~= "./target/cg_timing.txt"@);
        }
        self.set_output_file(path.as_str());
    }

    /// Starts timer `name` at time `now`, creating it if needed; a timer already
    /// running is left as it is.
    pub fn start(&mut self, name: &str, now: u64)
        requires
            old(self).wf(),
        ensures
            final(self).wf(),
            old(self).same_except(*final(self), name@),
            old(self).data_of(name@) is Some && old(self).data_of(name@).unwrap().start_time is Some
                ==> final(self).data_of(name@) == old(self).data_of(name@),
            old(self).data_of(name@) is Some && old(self).data_of(name@).unwrap().start_time is None
                ==> final(self).data_of(name@) == Some(
                TimerData { start_time: Some(now), ..old(self).data_of(name@).unwrap() },
            ),
            old(self).data_of(name@) is None ==> final(self).data_of(name@) == Some(
                TimerData { start_time: Some(now), elapsed: 0, count: 0 },
            ),
    {
        match self.position(name) {
            Some(i) => {
                let d = self.timers[i].data;
                if d.start_time.is_none() {
                    self.put(i, TimerData { start_time: Some(now), ..d });
                }
            },
            None => {
                self.add(name, TimerData { start_time: Some(now), elapsed: 0, count: 0 });
            },
        }
    }

    /// Stops timer `name` at time `now`, adding the time since it started to its
    /// total and counting one measurement. A timer that is absent or not
    /// running is left as it is.
    pub fn stop(&mut self, name: &str, now: u64)
        requires
            old(self).wf(),
        ensures
            final(self).wf(),
            old(self).same_except(*final(self), name@),
            old(self).data_of(name@) is Some && old(self).data_of(name@).unwrap().start_time is Some
                ==> ({
                let d = old(self).data_of(name@).unwrap();
                let t = d.start_time.unwrap();
                final(self).data_of(name@) == Some(
                    TimerData {
                        start_time: None,
                        elapsed: sat64(d.elapsed + if now >= t {
                            now - t
                        } else {
                            0
                        }),
                        count: sat64(d.count + 1),
                    },
                )
            }),
            !(old(self).data_of(name@) is Some && old(self).data_of(name@).unwrap().start_time is Some)
                ==> final(self).data_of(name@) == old(self).data_of(name@),
    {
        match self.position(name) {
            Some(i) => {
                let d = self.timers[i].data;
                match d.start_time {
                    Some(t) => {
                        let spent = if now >= t {
                            now - t
                        } else {
                            0
                        };
                        let nd = TimerData {
                            start_time: None,
                            elapsed: add_capped(d.elapsed, spent),
                            count: add_capped(d.count, 1),
                        };
                        self.put(i, nd);
                    },
                    None => {},
                }
            },
            None => {},
        }
    }

    /// Records a measurement of `duration` for timer `name`, creating it if needed.
    pub fn record(&mut self, name: &str, duration: u64)
        requires
            old(self).wf(),
        ensures
            final(self).wf(),
            old(self).same_except(*final(self), name@),
            ({
                let d = match old(self).data_of(name@) {
                    Some(d) => d,
                    None => TimerData { start_time: None, elapsed: 0, count: 0 },
                };
                final(self).data_of(name@) == Some(
                    TimerData {
                        elapsed: sat64(d.elapsed + duration),
                        count: sat64(d.count + 1),
                        ..d
                    },
                )
            }),
    {
        match self.position(name) {
            Some(i) => {
                let d = self.timers[i].data;
                self.put(
                    i,
                    TimerData {
                        elapsed: add_capped(d.elapsed, duration),
                        count: add_capped(d.count, 1),
                        ..d
                    },
                );
            },
            None => {
                self.add(name, TimerData { start_time: None, elapsed: duration, count: 1 });
            },
        }
    }

    /// Removes every timer.
    pub fn reset_all(&mut self)
        ensures
            final(self).wf(),
            final(self).output_file == old(self).output_file,
            forall|n: Seq<char>| #[trigger] final(self).data_of(n) is None,
    {
        self.timers = Vec::new();
    }

    /// Removes timer `name`.
    pub fn reset(&mut self, name: &str)
        requires
            old(self).wf(),
        ensures
            final(self).wf(),
            old(self).same_except(*final(self), name@),
            final(self).data_of(name@) is None,
    {
        let ghost before = *self;
        match self.position(name) {
            Some(i) => {
                self.timers.remove(i);
                proof {
                    let after = *self;
                    let bt = before.timers@;
                    let at = after.timers@;
                    assert(at =~= bt.remove(i as int));
                    assert forall|a: int, b: int| 0 <= a < b < at.len() implies at[a].name@ != at[b].name@ by {
                        let a0 = if a < i { a } else { a + 1 };
                        let b0 = if b < i { b } else { b + 1 };
                        assert(at[a] == bt[a0] && at[b] == bt[b0]);
                        assert(bt[a0].name@ != bt[b0].name@);
                    }
                    assert forall|j: int| 0 <= j < at.len() implies at[j].name@ != name@ by {
                        let j0 = if j < i { j } else { j + 1 };
                        assert(at[j] == bt[j0]);
                        if j0 != i {
                            if j0 < i {
                                assert(bt[j0].name@ != bt[i as int].name@);
                            } else {
                                assert(bt[i as int].name@ != bt[j0].name@);
                            }
                        }
                    }
                    assert forall|n: Seq<char>| n != name@ implies #[trigger] after.data_of(n) == before.data_of(n) by {
                        if exists|j: int| 0 <= j < bt.len() && bt[j].name@ == n {
                            let j = choose|j: int| 0 <= j < bt.len() && bt[j].name@ == n;
                            before.lemma_data_at(j);
                            assert(j != i);
                            let j1 = if j < i { j } else { j - 1 };
                            assert(at[j1] == bt[j]);
                            after.lemma_data_at(j1);
                        } else {
                            assert forall|k: int| 0 <= k < at.len() implies at[k].name@ != n by {
                                let k0 = if k < i { k } else { k + 1 };
                                assert(at[k] == bt[k0]);
                            }
                        }
                    }
                }
            },
            None => {},
        }
    }
}

} // verus!
