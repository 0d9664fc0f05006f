//! The parse side of the pipeline: decoded lines are gathered into batches.

use vstd::prelude::*;

use crate::entry::Word;

verus! {

/// What decoding one input line produced.
#[derive(Debug)]
pub enum Decoded {
    Entry(Word),
    /// The line could not be decoded; it is skipped and counted.
    Malformed,
}

/// The parse worker's counters, kept for reporting only.
#[derive(Debug, Clone, Copy, PartialEq, Eq)]
pub struct ParseStats {
    pub lines: u64,
    pub errors: u64,
    pub parse_nanos: u128,
}

/// The number of entries a full batch holds: a threshold of zero behaves as one.
pub open spec fn capacity(batch_size: usize) -> nat {
    if batch_size == 0 {
        1
    } else {
        batch_size as nat
    }
}

/// The entries of a run of decoded lines, malformed lines left out, in order.
pub open spec fn entries_of(ds: Seq<Decoded>) -> Seq<Word>
    decreases ds.len(),
{
    if ds.len() == 0 {
        seq![]
    } else {
        entries_of(ds.drop_last()) + match ds.last() {
            Decoded::Entry(w) => seq![w],
            Decoded::Malformed => seq![],
        }
    }
}

/// The number of malformed lines in a run of decoded lines.
pub open spec fn malformed_count(ds: Seq<Decoded>) -> nat
    decreases ds.len(),
{
    if ds.len() == 0 {
        0
    } else {
        malformed_count(ds.drop_last()) + match ds.last() {
            Decoded::Entry(_) => 0nat,
            Decoded::Malformed => 1nat,
        }
    }
}

proof fn lemma_malformed_count_bound(ds: Seq<Decoded>)
    ensures
        malformed_count(ds) <= ds.len(),
    decreases ds.len(),
{
    if ds.len() > 0 {
        lemma_malformed_count_bound(ds.drop_last());
    }
}

/// Every line of a run is either a decoded entry, handed on to be written,
/// or a counted decode error: with K malformed lines among N decoded ones,
/// N entries go on and K errors are counted.
pub proof fn lemma_lines_accounted(ds: Seq<Decoded>)
    ensures
        entries_of(ds).len() + malformed_count(ds) == ds.len(),
    decreases ds.len(),
{
    if ds.len() > 0 {
        lemma_lines_accounted(ds.drop_last());
    }
}

/// The contents of a list of batches.
pub open spec fn batches_view(bs: Seq<Vec<Word>>) -> Seq<Seq<Word>> {
    bs.map_values(|b: Vec<Word>| b@)
}

/// Every batch is non-empty and holds at most `cap` entries; all but the last
/// hold exactly `cap`.
pub open spec fn well_cut(bs: Seq<Seq<Word>>, cap: nat) -> bool {
    &&& forall|i: int| 0 <= i < bs.len() ==> 0 < #[trigger] bs[i].len() <= cap
    &&& forall|i: int| 0 <= i < bs.len() - 1 ==> #[trigger] bs[i].len() == cap
}

/// True when the line holds nothing to decode.
pub fn is_blank(line: &str) -> (r: bool)
    ensures
        r == (line@.len() == 0),
{
    line.is_empty()
}

/// Gathers decoded entries into batches of a fixed size.
pub struct Batcher {
    batch_size: usize,
    max_lines: usize,
    current: Vec<Word>,
    stats: ParseStats,
}

impl Batcher {
    /// The entries gathered since the last full batch was handed out.
    pub closed spec fn pending(&self) -> Seq<Word> {
        self.current@
    }

    pub closed spec fn batch_size(&self) -> usize {
        self.batch_size
    }

    pub closed spec fn max_lines(&self) -> usize {
        self.max_lines
    }

    pub closed spec fn spec_stats(&self) -> ParseStats {
        self.stats
    }

    /// The pending batch is never full.
    pub closed spec fn wf(&self) -> bool {
        self.current@.len() < capacity(self.batch_size)
    }

    /// What `wf` gives to callers: the pending batch is not yet full.
    pub proof fn lemma_wf(&self)
        requires
            self.wf(),
        ensures
            self.pending().len() < capacity(self.batch_size()),
    {
    }

    /// A batcher handing out batches of `batch_size` entries, which stops
    /// after `max_lines` lines (zero: no cap).
    pub fn new(batch_size: usize, max_lines: usize) -> (r: Batcher)
        ensures
            r.wf(),
            r.pending() == Seq::<Word>::empty(),
            r.batch_size() == batch_size,
            r.max_lines() == max_lines,
            r.spec_stats() == (ParseStats { lines: 0, errors: 0, parse_nanos: 0 }),
    {
        Batcher {
            batch_size,
            max_lines,
            current: Vec::new(),
            stats: ParseStats { lines: 0, errors: 0, parse_nanos: 0 },
        }
    }

    pub fn stats(&self) -> (r: ParseStats)
        ensures
            r == self.spec_stats(),
    {
        self.stats
    }

    /// Adds the time spent decoding a line.
    pub fn add_parse_time(&mut self, nanos: u128)
        ensures
            final(self).pending() == old(self).pending(),
            final(self).batch_size() == old(self).batch_size(),
            final(self).max_lines() == old(self).max_lines(),
            final(self).wf() == old(self).wf(),
            final(self).spec_stats() == (ParseStats {
                parse_nanos: old(self).spec_stats().parse_nanos.saturating_add(nanos),
                ..old(self).spec_stats()
            }),
    {
        self.stats.parse_nanos = self.stats.parse_nanos.saturating_add(nanos);
    }

    /// True once the line cap is reached.
    pub fn should_stop(&self) -> (r: bool)
        ensures
            r == (self.max_lines() != 0 && self.spec_stats().lines >= self.max_lines()),
    {
        self.max_lines != 0 && self.stats.lines >= self.max_lines as u64
    }

    /// Takes one decoded line. When the pending batch becomes full it is
    /// handed out and a new one is started.
    pub fn push(&mut self, d: Decoded) -> (r: Option<Vec<Word>>)
        requires
            old(self).wf(),
        ensures
            final(self).wf(),
            final(self).batch_size() == old(self).batch_size(),
            final(self).max_lines() == old(self).max_lines(),
            final(self).spec_stats().lines == old(self).spec_stats().lines.saturating_add(1),
            final(self).spec_stats().parse_nanos == old(self).spec_stats().parse_nanos,
            match d {
                Decoded::Malformed => {
                    &&& r is None
                    &&& final(self).pending() == old(self).pending()
                    &&& final(self).spec_stats().errors == old(self).spec_stats().errors.saturating_add(1)
                },
                Decoded::Entry(w) => {
                    &&& final(self).spec_stats().errors == old(self).spec_stats().errors
                    &&& if old(self).pending().len() + 1 == capacity(old(self).batch_size()) {
                        &&& r matches Some(b)
                        &&& b@ == old(self).pending().push(w)
                        &&& final(self).pending() == Seq::<Word>::empty()
                    } else {
                        &&& r is None
                        &&& final(self).pending() == old(self).pending().push(w)
                    }
                },
            },
    {
        self.stats.lines = self.stats.lines.saturating_add(1);
        match d {
            Decoded::Malformed => {
                self.stats.errors = self.stats.errors.saturating_add(1);
                None
            },
            Decoded::Entry(w) => {
                self.current.push(w);
                if self.current.len() >= self.batch_size {
                    let mut full: Vec<Word> = Vec::new();
                    std::mem::swap(&mut self.current, &mut full);
                    Some(full)
                } else {
                    None
                }
            },
        }
    }

    /// Ends the input: hands out what is pending, if anything.
    pub fn finish(self) -> (r: Option<Vec<Word>>)
        ensures
            self.pending().len() == 0 ==> r is None,
            self.pending().len() > 0 ==> (r matches Some(b) && b@ == self.pending()),
    {
        if self.current.len() == 0 {
            None
        } else {
            Some(self.current)
        }
    }
}

/// Cuts a whole run of decoded lines into batches: the batches hold exactly
/// the decoded entries, in input order, and malformed lines are counted.
pub fn split_batches(lines: Vec<Decoded>, batch_size: usize) -> (r: (Vec<Vec<Word>>, ParseStats))
    requires
        lines@.len() < u64::MAX,
    ensures
        batches_view(r.0@).flatten() == entries_of(lines@),
        well_cut(batches_view(r.0@), capacity(batch_size)),
        r.1.lines == lines@.len(),
        r.1.errors == malformed_count(lines@),
        r.1.parse_nanos == 0,
{
    let ghost input = lines@;
    let mut batcher = Batcher::new(batch_size, 0);
    let mut out: Vec<Vec<Word>> = Vec::new();
    // Reverse the input once, so that entries can be popped in input order.
    let mut rest: Vec<Decoded> = Vec::with_capacity(lines.len());
    let mut source = lines;
    while source.len() > 0
        invariant
            source@.len() + rest@.len() == input.len(),
            source@ == input.subrange(0, source@.len() as int),
            rest@ == input.subrange(source@.len() as int, input.len() as int).reverse(),
        decreases source@.len(),
    {
        let d = source.pop().unwrap();
        rest.push(d);
        proof {
            assert(rest@ =~= input.subrange(source@.len() as int, input.len() as int).reverse());
        }
    }
    let mut n: usize = 0;
    while rest.len() > 0
        invariant
            batcher.wf(),
            batcher.batch_size() == batch_size,
            n + rest@.len() == input.len(),
            rest@ == input.subrange(n as int, input.len() as int).reverse(),
            batches_view(out@).flatten() + batcher.pending() == entries_of(input.subrange(0, n as int)),
            well_cut(batches_view(out@), capacity(batch_size)),
            out@.len() > 0 ==> out@.last()@.len() == capacity(batch_size),
            batcher.spec_stats().lines == n,
            batcher.spec_stats().errors == malformed_count(input.subrange(0, n as int)),
            batcher.spec_stats().parse_nanos == 0,
            input.len() < u64::MAX,
            input.len() <= usize::MAX,
        decreases rest@.len(),
    {
        let d = rest.pop().unwrap();
        proof {
            lemma_malformed_count_bound(input.subrange(0, n as int));
            assert(d == input[n as int]);
            assert(input.subrange(0, n as int + 1).drop_last() =~= input.subrange(0, n as int));
        }
        let ghost before = batches_view(out@);
        match batcher.push(d) {
            Some(b) => {
                out.push(b);
                proof {
                    assert(batches_view(out@) =~= before.push(b@));
                    before.lemma_flatten_push(b@);
                }
            },
            None => {},
        }
        n = n + 1;
        proof {
            assert(rest@ =~= input.subrange(n as int, input.len() as int).reverse());
        }
    }
    assert(input.subrange(0, n as int) =~= input);
    let stats = batcher.stats();
    let ghost before = batches_view(out@);
    let ghost pending = batcher.pending();
    match batcher.finish() {
        Some(b) => {
            out.push(b);
            proof {
                assert(batches_view(out@) =~= before.push(b@));
                before.lemma_flatten_push(b@);
            }
        },
        None => {
            assert(pending =~= Seq::<Word>::empty());
            assert(before.flatten() + pending =~= before.flatten());
        },
    }
    (out, stats)
}

} // verus!
