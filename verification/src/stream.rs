//! Frame scheduling for the streaming encoder.
//!
//! A streaming encoder takes bytes as they come and sends one audio frame per
//! 20 ms: on its first push, the leading silent frames; then one data frame for
//! every `n_bins` symbols buffered; on finish, the last partial frame padded
//! with symbol 0 and the trailing silent frames. `StreamFramer` makes those
//! decisions; the caller synthesises and encodes each frame it is handed.

use vstd::prelude::*;

use crate::config::Config;
use crate::differential::copy_frame;
use crate::modulation::{bytes_to_symbols, ceil_div, padded_symbol, spb, spec_bytes_to_symbols, spec_symbols_to_frames};

verus! {

/// A frame to send.
#[derive(Debug, Clone)]
pub enum FrameJob {
    /// A silent frame.
    Silence,
    /// A data frame of `n_bins` symbols.
    Data(Vec<usize>),
}

/// What a frame job stands for: `None` for silence, the symbols of a data frame.
pub open spec fn job_view(j: FrameJob) -> Option<Seq<usize>> {
    match j {
        FrameJob::Silence => None,
        FrameJob::Data(v) => Some(v@),
    }
}

/// The contents of a list of frame jobs.
pub open spec fn jobs_view(js: Seq<FrameJob>) -> Seq<Option<Seq<usize>>> {
    Seq::new(js.len(), |i: int| job_view(js[i]))
}

proof fn lemma_jobs_view_push(js: Seq<FrameJob>, j: FrameJob)
    ensures
        jobs_view(js.push(j)) == jobs_view(js).push(job_view(j)),
{
    assert(jobs_view(js.push(j)) =~= jobs_view(js).push(job_view(j)));
}

/// `k` silent frames.
pub open spec fn silences(k: nat) -> Seq<Option<Seq<usize>>> {
    Seq::new(k, |i: int| None::<Seq<usize>>)
}

/// Data frames with the given symbols.
pub open spec fn data_jobs(frames: Seq<Seq<usize>>) -> Seq<Option<Seq<usize>>> {
    Seq::new(frames.len(), |i: int| Some(frames[i]))
}

/// The complete chunks of `n` symbols at the front of `s`.
pub open spec fn full_chunks(s: Seq<usize>, n: nat) -> Seq<Seq<usize>> {
    Seq::new(s.len() / n, |k: int| s.subrange(k * n, k * n + n))
}

/// What is left of `s` after its complete chunks of `n`.
pub open spec fn leftover(s: Seq<usize>, n: nat) -> Seq<usize> {
    s.subrange(((s.len() / n) * n) as int, s.len() as int)
}

/// State of a streaming framer.
pub struct FramerView {
    pub config: Config,
    /// Symbols not yet sent.
    pub buffer: Seq<usize>,
    /// Whether the leading silence has been sent.
    pub started: bool,
    /// Leading silent frames sent.
    pub padding_sent: nat,
}

/// The framer state after a push of `data`, and the frames it sends.
pub open spec fn spec_push(v: FramerView, data: Seq<u8>) -> (FramerView, Seq<Option<Seq<usize>>>) {
    let n = v.config.n_bins as nat;
    let lead = if v.started { Seq::empty() } else { silences((v.config.padding_frames - v.padding_sent) as nat) };
    let all = v.buffer + spec_bytes_to_symbols(data, v.config.depth);
    (
        FramerView {
            config: v.config,
            buffer: leftover(all, n),
            started: true,
            padding_sent: if v.started { v.padding_sent } else { v.config.padding_frames as nat },
        },
        lead + data_jobs(full_chunks(all, n)),
    )
}

/// The last partial frame, padded with symbol 0, if any symbols are buffered.
pub open spec fn flush_jobs(buffer: Seq<usize>, n: nat) -> Seq<Option<Seq<usize>>> {
    if buffer.len() > 0 {
        seq![Some(Seq::new(n, |j: int| padded_symbol(buffer, j)))]
    } else {
        Seq::empty()
    }
}

/// The framer state after finishing, and the frames it sends.
pub open spec fn spec_finish(v: FramerView) -> (FramerView, Seq<Option<Seq<usize>>>) {
    (
        FramerView { buffer: Seq::empty(), ..v },
        flush_jobs(v.buffer, v.config.n_bins as nat) + silences(v.config.trailing_frames as nat),
    )
}

/// Streaming frame scheduler.
pub struct StreamFramer {
    config: Config,
    symbol_buffer: Vec<usize>,
    started: bool,
    padding_sent: usize,
}

impl View for StreamFramer {
    type V = FramerView;

    closed spec fn view(&self) -> FramerView {
        FramerView {
            config: self.config,
            buffer: self.symbol_buffer@,
            started: self.started,
            padding_sent: self.padding_sent as nat,
        }
    }
}

/// A framer state that the framer's operations keep: frames of at least one
/// symbol, fewer than a frame buffered, leading silence counted up to its length.
pub open spec fn framer_wf(v: FramerView) -> bool {
    &&& v.config.n_bins > 0
    &&& v.buffer.len() < v.config.n_bins
    &&& v.padding_sent <= v.config.padding_frames
}

impl StreamFramer {
    /// A framer for `config` that has sent nothing.
    pub fn new(config: Config) -> (r: StreamFramer)
        requires
            config.n_bins > 0,
        ensures
            r@ == (FramerView { config, buffer: Seq::empty(), started: false, padding_sent: 0 }),
            framer_wf(r@),
    {
        StreamFramer { config, symbol_buffer: Vec::new(), started: false, padding_sent: 0 }
    }

    /// The configuration.
    pub fn config(&self) -> (r: Config)
        ensures
            r == self@.config,
    {
        self.config
    }

    /// Take `data`; return the frames now due: the leading silence on the first
    /// push, then one data frame for every complete `n_bins` symbols buffered.
    pub fn push(&mut self, data: &[u8]) -> (r: Vec<FrameJob>)
        requires
            framer_wf(old(self)@),
            data@.len() * 8 + old(self)@.config.n_bins <= usize::MAX,
        ensures
            framer_wf(final(self)@),
            (final(self)@, jobs_view(r@)) == spec_push(old(self)@, data@),
    {
        let ghost v = self@;
        let n = self.config.n_bins;
        let mut jobs: Vec<FrameJob> = Vec::new();
        if !self.started {
            self.started = true;
            while self.padding_sent < self.config.padding_frames
                invariant
                    self.config == v.config,
                    self.symbol_buffer@ == v.buffer,
                    self.started,
                    v.padding_sent <= self.padding_sent <= self.config.padding_frames,
                    jobs_view(jobs@) == silences((self.padding_sent - v.padding_sent) as nat),
                decreases self.config.padding_frames - self.padding_sent,
            {
                proof { lemma_jobs_view_push(jobs@, FrameJob::Silence); }
                jobs.push(FrameJob::Silence);
                self.padding_sent += 1;
                assert(jobs_view(jobs@) =~= silences((self.padding_sent - v.padding_sent) as nat));
            }
        } else {
            assert(jobs_view(jobs@) =~= Seq::<Option<Seq<usize>>>::empty());
        }
        let ghost lead = jobs_view(jobs@);

        let symbols = bytes_to_symbols(data, &self.config);
        proof {
            assert(symbols@.len() == data@.len() * spb(self.config.depth));
            assert(symbols@.len() <= data@.len() * 8) by (nonlinear_arith)
                requires symbols@.len() == data@.len() * spb(self.config.depth), spb(self.config.depth) <= 8;
        }
        let mut all: Vec<usize> = Vec::new();
        let mut i: usize = 0;
        while i < self.symbol_buffer.len()
            invariant
                i <= self.symbol_buffer@.len(),
                all@ == self.symbol_buffer@.take(i as int),
            decreases self.symbol_buffer@.len() - i,
        {
            all.push(self.symbol_buffer[i]);
            i += 1;
            assert(all@ =~= self.symbol_buffer@.take(i as int));
        }
        let mut k: usize = 0;
        while k < symbols.len()
            invariant
                k <= symbols@.len(),
                all@ == self.symbol_buffer@ + symbols@.take(k as int),
            decreases symbols@.len() - k,
        {
            all.push(symbols[k]);
            k += 1;
            assert(all@ =~= self.symbol_buffer@ + symbols@.take(k as int));
        }
        assert(symbols@.take(symbols@.len() as int) =~= symbols@);
        let ghost allv = all@;
        assert(allv == v.buffer + spec_bytes_to_symbols(data@, v.config.depth));

        let len = all.len();
        let mut pos: usize = 0;
        let mut f: usize = 0;
        while len - pos >= n
            invariant
                n == v.config.n_bins,
                n > 0,
                len == allv.len(),
                all@ == allv,
                pos == f * n,
                pos <= len,
                jobs_view(jobs@) == lead + data_jobs(full_chunks(allv, n as nat).take(f as int)),
                f <= allv.len() / (n as nat),
            decreases len - pos,
        {
            let frame = copy_frame(&all.as_slice()[pos..pos + n]);
            proof {
                assert(f < allv.len() / (n as nat)) by (nonlinear_arith)
                    requires pos == f * n, len - pos >= n, len == allv.len(), n > 0;
                assert(frame@ == full_chunks(allv, n as nat)[f as int]);
            }
            proof { lemma_jobs_view_push(jobs@, FrameJob::Data(frame)); }
            jobs.push(FrameJob::Data(frame));
            pos = pos + n;
            f = f + 1;
            proof {
                assert(pos == f * n) by (nonlinear_arith)
                    requires pos == (f - 1) * n + n;
                assert(jobs_view(jobs@) =~= lead + data_jobs(full_chunks(allv, n as nat).take(f as int)));
            }
        }
        proof {
            assert(f == allv.len() / (n as nat)) by (nonlinear_arith)
                requires pos == f * n, len - pos < n, len == allv.len(), n > 0, f <= allv.len() / (n as nat);
            assert(full_chunks(allv, n as nat).take(f as int) =~= full_chunks(allv, n as nat));
        }
        let rest = copy_frame(&all.as_slice()[pos..len]);
        assert(rest@ =~= leftover(allv, n as nat));
        self.symbol_buffer = rest;
        proof {
            assert(self.padding_sent == (if v.started { v.padding_sent } else { v.config.padding_frames as nat }));
            assert(lead == (if v.started { Seq::empty() } else { silences((v.config.padding_frames - v.padding_sent) as nat) }));
        }
        jobs
    }

    /// Send what is left: the buffered symbols as one last frame padded with
    /// symbol 0 (if any), then the trailing silent frames.
    pub fn finish(&mut self) -> (r: Vec<FrameJob>)
        requires
            framer_wf(old(self)@),
        ensures
            framer_wf(final(self)@),
            (final(self)@, jobs_view(r@)) == spec_finish(old(self)@),
    {
        let ghost v = self@;
        let n = self.config.n_bins;
        let mut jobs: Vec<FrameJob> = Vec::new();
        if self.symbol_buffer.len() > 0 {
            let mut frame = copy_frame(self.symbol_buffer.as_slice());
            while frame.len() < n
                invariant
                    n == v.config.n_bins,
                    v.buffer.len() <= frame@.len() <= n,
                    forall|j: int| 0 <= j < frame@.len() ==> #[trigger] frame@[j] == padded_symbol(v.buffer, j),
                decreases n - frame@.len(),
            {
                frame.push(0);
            }
            assert(frame@ =~= Seq::new(n as nat, |j: int| padded_symbol(v.buffer, j)));
            proof { lemma_jobs_view_push(jobs@, FrameJob::Data(frame)); }
            jobs.push(FrameJob::Data(frame));
            self.symbol_buffer = Vec::new();
        }
        let ghost flush = jobs_view(jobs@);
        assert(flush =~= flush_jobs(v.buffer, n as nat));
        let mut t: usize = 0;
        while t < self.config.trailing_frames
            invariant
                self.config == v.config,
                t <= self.config.trailing_frames,
                jobs_view(jobs@) == flush + silences(t as nat),
            decreases self.config.trailing_frames - t,
        {
            proof { lemma_jobs_view_push(jobs@, FrameJob::Silence); }
            jobs.push(FrameJob::Silence);
            t += 1;
            assert(jobs_view(jobs@) =~= flush + silences(t as nat));
        }
        assert(self.symbol_buffer@ =~= Seq::<usize>::empty());
        assert(self@ == spec_finish(v).0);
        jobs
    }
}

/// The bytes of several pushes, in order.
pub open spec fn concat_all(datas: Seq<Seq<u8>>) -> Seq<u8>
    decreases datas.len(),
{
    if datas.len() == 0 {
        Seq::empty()
    } else {
        datas[0] + concat_all(datas.drop_first())
    }
}

/// The framer state after pushing each of `datas` in turn, and the frames sent.
pub open spec fn run_pushes(v: FramerView, datas: Seq<Seq<u8>>) -> (FramerView, Seq<Option<Seq<usize>>>)
    decreases datas.len(),
{
    if datas.len() == 0 {
        (v, Seq::empty())
    } else {
        let (v1, j1) = spec_push(v, datas[0]);
        let (v2, j2) = run_pushes(v1, datas.drop_first());
        (v2, j1 + j2)
    }
}

/// A framer that has sent nothing.
pub open spec fn fresh_framer(config: Config) -> FramerView {
    FramerView { config, buffer: Seq::empty(), started: false, padding_sent: 0 }
}

/// Every frame a fresh framer sends for the pushes `datas` followed by a finish.
pub open spec fn stream_frames(config: Config, datas: Seq<Seq<u8>>) -> Seq<Option<Seq<usize>>> {
    let (v, j) = run_pushes(fresh_framer(config), datas);
    j + spec_finish(v).1
}

/// The symbols of two byte strings in a row are the symbols of each in turn.
proof fn lemma_symbols_concat(a: Seq<u8>, b: Seq<u8>, d: crate::config::Depth)
    ensures
        spec_bytes_to_symbols(a + b, d) == spec_bytes_to_symbols(a, d) + spec_bytes_to_symbols(b, d),
{
    let k = spb(d) as int;
    let l = spec_bytes_to_symbols(a + b, d);
    let r = spec_bytes_to_symbols(a, d) + spec_bytes_to_symbols(b, d);
    assert(k > 0);
    assert((a.len() + b.len()) * k == a.len() * k + b.len() * k) by (nonlinear_arith);
    assert forall|i: int| 0 <= i < l.len() implies #[trigger] l[i] == r[i] by {
        let q = i / k;
        assert(0 <= q < a.len() + b.len()) by (nonlinear_arith)
            requires 0 <= i < (a.len() + b.len()) * k, q == i / k, k > 0;
        if i < a.len() * k {
            assert(q < a.len()) by (nonlinear_arith)
                requires i < a.len() * k, q == i / k, k > 0, i >= 0;
        } else {
            let i2 = i - a.len() * k;
            assert(i2 / k == q - a.len() && i2 % k == i % k) by (nonlinear_arith)
                requires i2 == i - a.len() * k, k > 0, i2 >= 0, q == i / k;
            assert(q >= a.len()) by (nonlinear_arith)
                requires i >= a.len() * k, q == i / k, k > 0;
        }
    }
    assert(l =~= r);
}

/// Frames of a stream whose front is `m` whole frames: those frames, then the
/// frames of the rest.
proof fn lemma_frames_split(c: Seq<usize>, y: Seq<usize>, n: nat, m: nat)
    requires
        n > 0,
        c.len() == m * n,
    ensures
        spec_symbols_to_frames(c + y, n) == full_chunks(c, n) + spec_symbols_to_frames(y, n),
{
    let x = c + y;
    let lhs = spec_symbols_to_frames(x, n);
    let rhs = full_chunks(c, n) + spec_symbols_to_frames(y, n);
    let ni = n as int;
    let mi = m as int;
    let k = y.len() + ni - 1;
    assert((c.len() as int) / ni == mi) by {
        vstd::arithmetic::div_mod::lemma_fundamental_div_mod_converse(c.len() as int, ni, mi, 0);
    }
    assert(ceil_div(x.len() as int, ni) == mi + ceil_div(y.len() as int, ni)) by {
        assert(x.len() + ni - 1 == (mi + k / ni) * ni + k % ni) by (nonlinear_arith)
            requires x.len() == mi * ni + y.len(), k == y.len() + ni - 1, ni > 0;
        vstd::arithmetic::div_mod::lemma_fundamental_div_mod_converse(x.len() + ni - 1, ni, mi + k / ni, k % ni);
    }
    assert(lhs.len() == rhs.len());
    assert forall|f: int| 0 <= f < lhs.len() implies #[trigger] lhs[f] == rhs[f] by {
        if f < mi {
            assert(f * ni + ni <= mi * ni) by (nonlinear_arith)
                requires 0 <= f < mi, ni > 0;
            assert(f * ni >= 0) by (nonlinear_arith)
                requires 0 <= f, ni > 0;
            assert(rhs[f] == c.subrange(f * ni, f * ni + ni));
            assert forall|j: int| 0 <= j < ni implies #[trigger] lhs[f][j] == rhs[f][j] by {
                assert(f * ni + j < mi * ni);
            }
            assert(lhs[f] =~= rhs[f]);
        } else {
            assert forall|j: int| 0 <= j < ni implies #[trigger] lhs[f][j] == rhs[f][j] by {
                assert(f * ni + j == mi * ni + ((f - mi) * ni + j)) by (nonlinear_arith);
                assert((f - mi) * ni + j >= 0) by (nonlinear_arith)
                    requires f >= mi, 0 <= j, ni > 0;
            }
            assert(lhs[f] =~= rhs[f]);
        }
    }
    assert(lhs =~= rhs);
}

/// The complete chunks of `s` are those of its whole-frame front, and `s` is
/// that front followed by its leftover.
proof fn lemma_chunks_front(s: Seq<usize>, n: nat)
    requires
        n > 0,
    ensures
        s == s.subrange(0, ((s.len() / n) * n) as int) + leftover(s, n),
        s.subrange(0, ((s.len() / n) * n) as int).len() == (s.len() / n) * n,
        full_chunks(s.subrange(0, ((s.len() / n) * n) as int), n) == full_chunks(s, n),
        leftover(s, n).len() < n,
{
    let q = s.len() / n;
    let c = s.subrange(0, (q * n) as int);
    assert(q * n <= s.len()) by (nonlinear_arith)
        requires q == s.len() / n, n > 0;
    assert(s.len() - q * n < n) by (nonlinear_arith)
        requires q == s.len() / n, n > 0;
    assert(s =~= c + leftover(s, n));
    assert(c.len() / n == q) by {
        vstd::arithmetic::div_mod::lemma_fundamental_div_mod_converse(c.len() as int, n as int, q as int, 0);
    }
    assert forall|k: int| 0 <= k < q implies #[trigger] full_chunks(c, n)[k] == full_chunks(s, n)[k] by {
        assert(k * n + n <= q * n) by (nonlinear_arith)
            requires 0 <= k < q, n > 0;
        assert(k * n >= 0) by (nonlinear_arith)
            requires 0 <= k, n > 0;
        assert(full_chunks(c, n)[k] =~= full_chunks(s, n)[k]);
    }
    assert(full_chunks(c, n) =~= full_chunks(s, n));
}

/// Fewer than a frame of symbols make at most one frame, padded with symbol 0.
proof fn lemma_frames_short(b: Seq<usize>, n: nat)
    requires
        n > 0,
        b.len() < n,
    ensures
        data_jobs(spec_symbols_to_frames(b, n)) == flush_jobs(b, n),
{
    let ni = n as int;
    if b.len() == 0 {
        assert(ceil_div(0, ni) == 0) by {
            vstd::arithmetic::div_mod::lemma_basic_div(ni - 1, ni);
        }
        assert(data_jobs(spec_symbols_to_frames(b, n)) =~= flush_jobs(b, n));
    } else {
        assert(ceil_div(b.len() as int, ni) == 1) by {
            vstd::arithmetic::div_mod::lemma_fundamental_div_mod_converse(b.len() + ni - 1, ni, 1, b.len() - 1);
        }
        let fr = spec_symbols_to_frames(b, n);
        assert(fr[0] =~= Seq::new(n, |j: int| padded_symbol(b, j)));
        assert(data_jobs(fr) =~= flush_jobs(b, n));
    }
}

proof fn lemma_data_jobs_concat(a: Seq<Seq<usize>>, b: Seq<Seq<usize>>)
    ensures
        data_jobs(a + b) == data_jobs(a) + data_jobs(b),
{
    assert(data_jobs(a + b) =~= data_jobs(a) + data_jobs(b));
}

/// One push as frames: the frames of a buffer followed by more symbols are the
/// whole frames this push sends, then the frames of what it leaves buffered.
proof fn lemma_push_frames(v: FramerView, d0: Seq<u8>, more: Seq<usize>)
    requires
        framer_wf(v),
    ensures
        spec_symbols_to_frames(v.buffer + spec_bytes_to_symbols(d0, v.config.depth) + more, v.config.n_bins as nat)
            == full_chunks(v.buffer + spec_bytes_to_symbols(d0, v.config.depth), v.config.n_bins as nat)
                + spec_symbols_to_frames(spec_push(v, d0).0.buffer + more, v.config.n_bins as nat),
{
    let n = v.config.n_bins as nat;
    let all0 = v.buffer + spec_bytes_to_symbols(d0, v.config.depth);
    let c = all0.subrange(0, ((all0.len() / n) * n) as int);
    lemma_chunks_front(all0, n);
    assert(all0 + more =~= c + (leftover(all0, n) + more));
    lemma_frames_split(c, leftover(all0, n) + more, n, all0.len() / n);
}

/// From a started framer, the pushes and the finish send the frames of the
/// buffered symbols and all pushed symbols, then the trailing silence.
proof fn lemma_run_started(v: FramerView, datas: Seq<Seq<u8>>)
    requires
        framer_wf(v),
        v.started,
    ensures
        framer_wf(run_pushes(v, datas).0),
        run_pushes(v, datas).0.config == v.config,
        run_pushes(v, datas).1 + spec_finish(run_pushes(v, datas).0).1
            == data_jobs(spec_symbols_to_frames(
                v.buffer + spec_bytes_to_symbols(concat_all(datas), v.config.depth),
                v.config.n_bins as nat,
            )) + silences(v.config.trailing_frames as nat),
    decreases datas.len(),
{
    let n = v.config.n_bins as nat;
    let d = v.config.depth;
    if datas.len() == 0 {
        assert(concat_all(datas) =~= Seq::<u8>::empty());
        assert(spec_bytes_to_symbols(Seq::<u8>::empty(), d) =~= Seq::<usize>::empty());
        assert(v.buffer + Seq::<usize>::empty() =~= v.buffer);
        lemma_frames_short(v.buffer, n);
        assert(run_pushes(v, datas).1 =~= Seq::<Option<Seq<usize>>>::empty());
        assert(Seq::<Option<Seq<usize>>>::empty() + spec_finish(v).1 =~= spec_finish(v).1);
    } else {
        let d0 = datas[0];
        let rest = datas.drop_first();
        let (v1, j1) = spec_push(v, d0);
        let all0 = v.buffer + spec_bytes_to_symbols(d0, d);
        lemma_chunks_front(all0, n);
        assert(framer_wf(v1));
        lemma_run_started(v1, rest);
        let more = spec_bytes_to_symbols(concat_all(rest), d);
        lemma_symbols_concat(d0, concat_all(rest), d);
        assert(v.buffer + spec_bytes_to_symbols(concat_all(datas), d) =~= all0 + more);
        lemma_push_frames(v, d0, more);
        lemma_data_jobs_concat(full_chunks(all0, n), spec_symbols_to_frames(v1.buffer + more, n));
        assert(j1 =~= data_jobs(full_chunks(all0, n)));
        let (v2, j2) = run_pushes(v1, rest);
        assert(run_pushes(v, datas).1 == j1 + j2);
        assert(j1 + j2 + spec_finish(v2).1 =~= j1 + (j2 + spec_finish(v2).1));
    }
}

/// Law: a stream of one or more pushes and a finish sends exactly what the
/// whole-buffer encoder lays out for the concatenated data: the leading
/// silence, one frame per `n_bins` symbols with the last padded with symbol 0,
/// and the trailing silence.
pub proof fn lemma_stream_matches_batch(config: Config, datas: Seq<Seq<u8>>)
    requires
        config.n_bins > 0,
        datas.len() >= 1,
    ensures
        stream_frames(config, datas) == silences(config.padding_frames as nat)
            + data_jobs(spec_symbols_to_frames(spec_bytes_to_symbols(concat_all(datas), config.depth), config.n_bins as nat))
            + silences(config.trailing_frames as nat),
{
    let v = fresh_framer(config);
    let n = config.n_bins as nat;
    let d = config.depth;
    let d0 = datas[0];
    let rest = datas.drop_first();
    let (v1, j1) = spec_push(v, d0);
    let s0 = spec_bytes_to_symbols(d0, d);
    assert(v.buffer + s0 =~= s0);
    lemma_chunks_front(s0, n);
    assert(framer_wf(v1));
    lemma_run_started(v1, rest);
    let more = spec_bytes_to_symbols(concat_all(rest), d);
    lemma_symbols_concat(d0, concat_all(rest), d);
    lemma_push_frames(v, d0, more);
    assert(spec_bytes_to_symbols(concat_all(datas), d) =~= v.buffer + s0 + more);
    lemma_data_jobs_concat(full_chunks(s0, n), spec_symbols_to_frames(v1.buffer + more, n));
    assert(j1 == silences(config.padding_frames as nat) + data_jobs(full_chunks(s0, n)));
    let (v2, j2) = run_pushes(v1, rest);
    assert(run_pushes(v, datas).1 == j1 + j2);
    assert(j1 + j2 + spec_finish(v2).1 =~= silences(config.padding_frames as nat)
        + (data_jobs(full_chunks(s0, n)) + (j2 + spec_finish(v2).1)));
    assert(silences(config.padding_frames as nat)
        + (data_jobs(full_chunks(s0, n)) + (data_jobs(spec_symbols_to_frames(v1.buffer + more, n)) + silences(config.trailing_frames as nat)))
        =~= silences(config.padding_frames as nat)
        + (data_jobs(full_chunks(s0, n)) + data_jobs(spec_symbols_to_frames(v1.buffer + more, n)))
        + silences(config.trailing_frames as nat));
}

} // verus!
