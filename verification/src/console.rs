//! A small diagnostic console: keyed one-line status entries and an append-only
//! log, rendered to a single report string.

use vstd::prelude::*;
use vstd::string::StringExecFns;

verus! {

/// The console: status entries keyed by call site (later writes to the same
/// site replace the text) and a running log.
pub struct Console {
    pub entries: Vec<(String, String)>,
    pub logs: Vec<String>,
}

/// The console holds a status entry under this key.
pub open spec fn has_entry(c: Console, key: Seq<char>) -> bool {
    exists|i: int| 0 <= i < c.entries@.len() && (#[trigger] c.entries@[i].0)@ == key
}

/// The index of the status entry under this key.
pub open spec fn entry_index(c: Console, key: Seq<char>) -> int {
    choose|i: int| 0 <= i < c.entries@.len() && (#[trigger] c.entries@[i].0)@ == key
}

/// Status keys are unique.
pub open spec fn console_wf(c: Console) -> bool {
    forall|i: int, j: int|
        0 <= i < j < c.entries@.len() ==> (#[trigger] c.entries@[i].0)@ != (
        #[trigger] c.entries@[j].0)@
}

/// A block of lines: each item followed by a line break.
pub open spec fn lines_of(items: Seq<Seq<char>>) -> Seq<char>
    decreases items.len(),
{
    if items.len() == 0 {
        Seq::empty()
    } else {
        lines_of(items.drop_last()) + items.last() + "\n"@
    }
}

/// What the whole report reads as.
pub open spec fn report_of(c: Console) -> Seq<char> {
    "=Info=========================\n"@ + lines_of(
        c.entries@.map_values(|e: (String, String)| e.1@),
    ) + "=Log==========================\n"@ + lines_of(c.logs@.map_values(|s: String| s@))
}

impl Console {
    /// An empty console.
    pub fn new() -> (r: Console)
        ensures
            r.entries@.len() == 0,
            r.logs@.len() == 0,
            console_wf(r),
    {
        Console { entries: Vec::new(), logs: Vec::new() }
    }

    /// Set the status line for a call site, replacing an earlier one.
    pub fn info(&mut self, path: String, text: String)
        requires
            console_wf(*old(self)),
        ensures
            console_wf(*final(self)),
            final(self).logs == old(self).logs,
            has_entry(*old(self), path@) ==> final(self).entries@ == old(self).entries@.update(
                entry_index(*old(self), path@),
                (path, text),
            ),
            !has_entry(*old(self), path@) ==> final(self).entries@ == old(self).entries@.push(
                (path, text),
            ),
    {
        let n = self.entries.len();
        let mut i: usize = 0;
        while i < n
            invariant
                *self == *old(self),
                console_wf(*old(self)),
                i <= n,
                n == self.entries@.len(),
                forall|j: int| 0 <= j < i ==> (#[trigger] self.entries@[j].0)@ != path@,
            decreases n - i,
        {
            if self.entries[i].0 == path {
                self.entries[i] = (path, text);
                proof {
                    assert forall|a: int, b: int|
                        0 <= a < b < self.entries@.len() implies (#[trigger] self.entries@[a].0)@
                        != (#[trigger] self.entries@[b].0)@ by {
                        if a != i as int {
                            assert(self.entries@[a] == old(self).entries@[a]);
                        }
                        if b != i as int {
                            assert(self.entries@[b] == old(self).entries@[b]);
                        }
                        assert((old(self).entries@[i as int].0)@ == path@);
                    }
                    assert(has_entry(*old(self), path@));
                    let ci = entry_index(*old(self), path@);
                    assert(0 <= ci < old(self).entries@.len() && (old(self).entries@[ci].0)@
                        == path@);
                    if ci != i as int {
                        if ci < i as int {
                            assert((old(self).entries@[ci].0)@ != (old(
                                self,
                            ).entries@[i as int].0)@);
                        } else {
                            assert((old(self).entries@[i as int].0)@ != (old(
                                self,
                            ).entries@[ci].0)@);
                        }
                        assert(false);
                    }
                    assert(self.entries@ =~= old(self).entries@.update(ci, (path, text)));
                }
                return ;
            }
            i = i + 1;
        }
        self.entries.push((path, text));
        proof {
            assert forall|a: int, b: int|
                0 <= a < b < self.entries@.len() implies (#[trigger] self.entries@[a].0)@ != (
            #[trigger] self.entries@[b].0)@ by {
                if b < old(self).entries@.len() {
                    assert(self.entries@[a] == old(self).entries@[a]);
                    assert(self.entries@[b] == old(self).entries@[b]);
                } else {
                    assert(self.entries@[a] == old(self).entries@[a]);
                    assert((self.entries@[b].0)@ == path@);
                }
            }
            assert(!has_entry(*old(self), path@));
        }
    }

    /// Append a log line.
    pub fn log(&mut self, line: String)
        ensures
            final(self).logs@ == old(self).logs@.push(line),
            final(self).entries == old(self).entries,
            console_wf(*old(self)) ==> console_wf(*final(self)),
    {
        self.logs.push(line);
        proof {
            if console_wf(*old(self)) {
                assert forall|a: int, b: int|
                    0 <= a < b < self.entries@.len() implies (#[trigger] self.entries@[a].0)@ != (
                #[trigger] self.entries@[b].0)@ by {
                    assert(self.entries@[a] == old(self).entries@[a]);
                    assert(self.entries@[b] == old(self).entries@[b]);
                }
            }
        }
    }

    /// Render the report: the status block, then the log block.
    pub fn flush(&self) -> (r: String)
        ensures
            r@ == report_of(*self),
    {
        let mut out = "=Info=========================\n".to_owned();
        let n = self.entries.len();
        let mut i: usize = 0;
        while i < n
            invariant
                i <= n,
                n == self.entries@.len(),
                out@ == "=Info=========================\n"@ + lines_of(
                    self.entries@.subrange(0, i as int).map_values(|e: (String, String)| e.1@),
                ),
            decreases n - i,
        {
            out.append(self.entries[i].1.as_str());
            out.append("\n");
            proof {
                let f = |e: (String, String)| e.1@;
                let pre = self.entries@.subrange(0, i as int).map_values(f);
                let now = self.entries@.subrange(0, (i + 1) as int).map_values(f);
                assert(now.drop_last() =~= pre);
                assert(now.last() == self.entries@[i as int].1@);
                assert(out@ =~= "=Info=========================\n"@ + lines_of(now));
            }
            i = i + 1;
        }
        proof {
            assert(self.entries@.subrange(0, n as int) =~= self.entries@);
        }
        out.append("=Log==========================\n");
        let m = self.logs.len();
        let mut j: usize = 0;
        let ghost head = out@;
        while j < m
            invariant
                j <= m,
                m == self.logs@.len(),
                out@ == head + lines_of(self.logs@.subrange(0, j as int).map_values(|s: String| s@)),
            decreases m - j,
        {
            out.append(self.logs[j].as_str());
            out.append("\n");
            proof {
                let f = |s: String| s@;
                let pre = self.logs@.subrange(0, j as int).map_values(f);
                let now = self.logs@.subrange(0, (j + 1) as int).map_values(f);
                assert(now.drop_last() =~= pre);
                assert(now.last() == self.logs@[j as int]@);
                assert(out@ =~= head + lines_of(now));
            }
            j = j + 1;
        }
        proof {
            assert(self.logs@.subrange(0, m as int) =~= self.logs@);
            assert(out@ =~= report_of(*self));
        }
        out
    }

    /// Drop everything.
    pub fn clear(&mut self)
        ensures
            final(self).entries@.len() == 0,
            final(self).logs@.len() == 0,
            console_wf(*final(self)),
    {
        self.entries.clear();
        self.logs.clear();
    }
}

} // verus!
