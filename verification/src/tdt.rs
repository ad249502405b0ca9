//! Greedy decoding of a token-and-duration transducer.
//!
//! At each step the prediction network is run on the last token, and the joint network scores
//! tokens and durations for the current encoder frame. The best duration says how many frames to
//! skip.
//! - A blank token moves on by the skipped frames, at least one, and leaves the state as it was.
//! - Any other token joins the hypothesis and moves the state on. A skip moves on by that many
//!   frames. Without one the frame stays, until as many tokens were taken from it as one frame may
//!   give; then one frame is skipped.
use crate::joint::{joint_refused, joint_result, JointNetwork};
use crate::prediction::{
    prediction_refused, prediction_result, zero_vectors, LstmState, PredictionNet,
};
use crate::tensor::{
    argmax, argmax_refused, argmax_result, array, arrays, device_of, extent, is_number,
    lemma_volume_rows, rank_of, row, row_array, row_refused, single, tensor_dims, volume,
    zeros_refused, Array,
};
use candle_core::{Error, Tensor};
use vstd::prelude::*;

verus! {

/// Settings of the decoder.
pub struct TdtConfig {
    /// The number of frames that each duration class skips.
    pub durations: Vec<usize>,
    /// How many tokens one frame may give.
    pub max_symbols_per_step: usize,
}

/// The outcome of decoding.
pub struct TdtResult {
    /// Tokens, without blanks.
    pub tokens: Vec<u32>,
}

/// The decoder.
pub struct TdtGreedyDecoder {
    /// The number of frames that each duration class skips.
    pub durations: Vec<usize>,
    /// How many tokens one frame may give.
    pub max_symbols_per_step: usize,
    /// The blank token.
    pub blank_idx: usize,
}

/// Where decoding stands.
pub struct TdtCursor {
    /// The current frame.
    pub time: usize,
    /// Tokens taken from the current frame without leaving it.
    pub symbols: usize,
    /// The token that the prediction network gets next.
    pub last_token: u32,
    /// The hypothesis.
    pub tokens: Vec<u32>,
}

/// Where decoding stands, with the state of the prediction network.
pub struct TdtPoint {
    pub time: nat,
    pub symbols: nat,
    pub last_token: u32,
    pub tokens: Seq<u32>,
    pub h: Seq<Array>,
    pub c: Seq<Array>,
}

impl TdtCursor {
    /// The cursor with a state.
    pub open spec fn point(self, h: Seq<Array>, c: Seq<Array>) -> TdtPoint {
        TdtPoint {
            time: self.time as nat,
            symbols: self.symbols as nat,
            last_token: self.last_token,
            tokens: self.tokens@,
            h,
            c,
        }
    }
}

/// The lesser number.
pub open spec fn least(a: nat, b: nat) -> nat {
    if a <= b {
        a
    } else {
        b
    }
}

impl TdtGreedyDecoder {
    /// The frames that a duration class skips; one frame for a class without an entry.
    pub open spec fn skip_of(self, class: u32) -> nat {
        if (class as int) < self.durations@.len() {
            self.durations@[class as int] as nat
        } else {
            1
        }
    }

    /// Where decoding stands after a step that chose `token` and the duration `class`; the end of
    /// the frames is not passed.
    pub open spec fn next_point(
        self,
        p: TdtPoint,
        frames: nat,
        token: u32,
        class: u32,
        h_new: Seq<Array>,
        c_new: Seq<Array>,
    ) -> TdtPoint {
        let skip = self.skip_of(class);
        if token as usize == self.blank_idx {
            TdtPoint {
                time: least(p.time + if skip >= 1 { skip } else { 1 }, frames),
                symbols: 0,
                ..p
            }
        } else {
            let moved = TdtPoint {
                last_token: token,
                tokens: p.tokens.push(token),
                h: h_new,
                c: c_new,
                ..p
            };
            if skip > 0 {
                TdtPoint { time: least(p.time + skip, frames), symbols: 0, ..moved }
            } else if p.symbols + 1 >= self.max_symbols_per_step {
                TdtPoint { time: least(p.time + 1, frames), symbols: 0, ..moved }
            } else {
                TdtPoint { symbols: p.symbols + 1, ..moved }
            }
        }
    }

    /// Where decoding starts.
    pub open spec fn start_point(self, net: PredictionNet) -> TdtPoint {
        let zero = zero_vectors(net.num_layers as nat, net.hidden_size);
        TdtPoint {
            time: 0,
            symbols: 0,
            last_token: self.blank_idx as u32,
            tokens: Seq::empty(),
            h: zero,
            c: zero,
        }
    }

    /// One step led from `p` to `q`.
    pub open spec fn steps_to(
        self,
        encoder: Array,
        net: PredictionNet,
        joint: JointNetwork,
        p: TdtPoint,
        q: TdtPoint,
    ) -> bool {
        exists|s: TdtStep| #[trigger] self.step_by(encoder, net, joint, p, s, q)
    }

    /// One step, with its intermediate results, led from `p` to `q`.
    pub open spec fn step_by(
        self,
        encoder: Array,
        net: PredictionNet,
        joint: JointNetwork,
        p: TdtPoint,
        s: TdtStep,
        q: TdtPoint,
    ) -> bool {
        &&& prediction_result(net, p.last_token, p.h, p.c, s.prediction, s.h_new, s.c_new)
        &&& joint_result(
            joint,
            row_array(encoder, p.time as int),
            s.prediction,
            s.token_scores,
            s.duration_scores,
        )
        &&& argmax_result(s.token_scores, s.token)
        &&& argmax_result(s.duration_scores, s.class)
        &&& q == self.next_point(p, encoder.dims[0] as nat, s.token, s.class, s.h_new, s.c_new)
    }

    /// A step from `p` can be refused: a frame, a prediction, scores, or their greatest entries.
    pub open spec fn step_refused(
        self,
        encoder: Array,
        net: PredictionNet,
        joint: JointNetwork,
        p: TdtPoint,
    ) -> bool {
        let frame = row_array(encoder, p.time as int);
        ||| row_refused(encoder, p.time as int)
        ||| prediction_refused(net, p.last_token, p.h, p.c)
        ||| exists|out: Array, h: Seq<Array>, c: Seq<Array>| #[trigger]
            prediction_result(net, p.last_token, p.h, p.c, out, h, c) && {
                ||| joint_refused(joint, frame, out)
                ||| exists|tokens: Array, durations: Array| #[trigger]
                    joint_result(joint, frame, out, tokens, durations) && (argmax_refused(tokens)
                        || argmax_refused(durations))
            }
    }

    /// A run of the decoder that has come to a point from which a step can be refused.
    pub open spec fn run_stops(
        self,
        encoder: Array,
        net: PredictionNet,
        joint: JointNetwork,
        run: Seq<TdtPoint>,
    ) -> bool {
        &&& run.len() > 0
        &&& run[0] == self.start_point(net)
        &&& forall|i: int|
            0 < i < run.len() ==> self.steps_to(encoder, net, joint, run[i - 1], #[trigger] run[i])
        &&& forall|i: int| 0 <= i < run.len() ==> (#[trigger] run[i]).time < encoder.dims[0]
        &&& self.step_refused(encoder, net, joint, run.last())
    }

    /// Decoding is refused where there are no frames to count; the state before the first step, or
    /// a step, can be refused too.
    pub open spec fn decoding_refused(
        self,
        encoder: Array,
        net: PredictionNet,
        joint: JointNetwork,
    ) -> bool {
        ||| encoder.dims.len() == 0
        ||| net.num_layers > 0 && zeros_refused(seq![net.hidden_size], single())
        ||| exists|run: Seq<TdtPoint>| #[trigger] self.run_stops(encoder, net, joint, run)
    }

    /// A run of the decoder: it starts at the start, each point leads to the next, and it goes on
    /// until the frames are used up.
    pub open spec fn is_run(
        self,
        encoder: Array,
        net: PredictionNet,
        joint: JointNetwork,
        run: Seq<TdtPoint>,
    ) -> bool {
        &&& run.len() > 0
        &&& run[0] == self.start_point(net)
        &&& forall|i: int|
            0 < i < run.len() ==> self.steps_to(encoder, net, joint, run[i - 1], #[trigger] run[i])
        &&& forall|i: int| 0 <= i < run.len() - 1 ==> (#[trigger] run[i]).time < encoder.dims[0]
        &&& run.last().time >= encoder.dims[0]
    }

    /// The points of a run so far: it starts at the start, each point leads to the next, and none but
    /// the last one may have used up the frames.
    #[verifier::opaque]
    pub open spec fn so_far(
        self,
        encoder: Array,
        net: PredictionNet,
        joint: JointNetwork,
        run: Seq<TdtPoint>,
    ) -> bool {
        &&& run.len() > 0
        &&& run[0] == self.start_point(net)
        &&& forall|i: int|
            0 < i < run.len() ==> self.steps_to(encoder, net, joint, run[i - 1], #[trigger] run[i])
        &&& forall|i: int| 0 <= i < run.len() - 1 ==> (#[trigger] run[i]).time < encoder.dims[0]
    }

    /// One step was taken from `p` to `q`.
    #[verifier::opaque]
    pub open spec fn stepped(
        self,
        encoder: Array,
        net: PredictionNet,
        joint: JointNetwork,
        p: TdtPoint,
        s: TdtStep,
        q: TdtPoint,
    ) -> bool {
        self.step_by(encoder, net, joint, p, s, q)
    }

    /// A step from `p` was refused.
    #[verifier::opaque]
    pub open spec fn held_up(
        self,
        encoder: Array,
        net: PredictionNet,
        joint: JointNetwork,
        p: TdtPoint,
    ) -> bool {
        self.step_refused(encoder, net, joint, p)
    }
}

proof fn lemma_run_begins(
    d: TdtGreedyDecoder,
    encoder: Array,
    net: PredictionNet,
    joint: JointNetwork,
    p: TdtPoint,
)
    requires
        p == d.start_point(net),
    ensures
        d.so_far(encoder, net, joint, seq![p]),
{
    reveal(TdtGreedyDecoder::so_far);
}

proof fn lemma_run_goes_on(
    d: TdtGreedyDecoder,
    encoder: Array,
    net: PredictionNet,
    joint: JointNetwork,
    run: Seq<TdtPoint>,
    s: TdtStep,
    q: TdtPoint,
)
    requires
        d.so_far(encoder, net, joint, run),
        run.last().time < encoder.dims[0],
        d.stepped(encoder, net, joint, run.last(), s, q),
    ensures
        d.so_far(encoder, net, joint, run.push(q)),
{
    reveal(TdtGreedyDecoder::so_far);
    reveal(TdtGreedyDecoder::stepped);
    let longer = run.push(q);
    assert(d.step_by(encoder, net, joint, run.last(), s, q));
    assert forall|i: int| 0 < i < longer.len() implies d.steps_to(
        encoder,
        net,
        joint,
        longer[i - 1],
        #[trigger] longer[i],
    ) by {
        if i < run.len() {
            assert(longer[i] == run[i]);
            assert(longer[i - 1] == run[i - 1]);
        }
    }
}

proof fn lemma_run_ends(
    d: TdtGreedyDecoder,
    encoder: Array,
    net: PredictionNet,
    joint: JointNetwork,
    run: Seq<TdtPoint>,
)
    requires
        d.so_far(encoder, net, joint, run),
    ensures
        run.last().time >= encoder.dims[0] ==> d.is_run(encoder, net, joint, run),
        run.last().time < encoder.dims[0] && d.held_up(encoder, net, joint, run.last())
            ==> d.run_stops(encoder, net, joint, run),
{
    reveal(TdtGreedyDecoder::so_far);
    reveal(TdtGreedyDecoder::held_up);
}

/// The intermediate results of one step.
pub struct TdtStep {
    pub prediction: Array,
    pub h_new: Seq<Array>,
    pub c_new: Seq<Array>,
    pub token_scores: Array,
    pub duration_scores: Array,
    pub token: u32,
    pub class: u32,
}

/// The tokens that a frame may give.
pub open spec fn frame_limit(max_symbols: usize) -> nat {
    if max_symbols >= 1 {
        max_symbols as nat
    } else {
        1
    }
}

/// A point that decoding can reach: no blank in the hypothesis, fewer tokens taken from the frame
/// than it may give, and no more in all than the frames so far may give.
pub open spec fn reachable(d: TdtGreedyDecoder, p: TdtPoint) -> bool {
    &&& p.symbols < frame_limit(d.max_symbols_per_step)
    &&& p.tokens.len() <= p.time * frame_limit(d.max_symbols_per_step) + p.symbols
    &&& forall|i: int| 0 <= i < p.tokens.len() ==> #[trigger] p.tokens[i] as usize != d.blank_idx
}

/// A step from a frame keeps a point reachable and makes progress: it leaves the frame forwards, or
/// takes one more token from it.
pub proof fn law_step_makes_progress(
    d: TdtGreedyDecoder,
    p: TdtPoint,
    frames: nat,
    token: u32,
    class: u32,
    h_new: Seq<Array>,
    c_new: Seq<Array>,
)
    requires
        reachable(d, p),
        p.time < frames,
    ensures
        reachable(d, d.next_point(p, frames, token, class, h_new, c_new)),
        p.time <= d.next_point(p, frames, token, class, h_new, c_new).time <= frames,
        d.next_point(p, frames, token, class, h_new, c_new).time > p.time || d.next_point(
            p,
            frames,
            token,
            class,
            h_new,
            c_new,
        ).symbols > p.symbols,
{
    let limit = frame_limit(d.max_symbols_per_step) as int;
    let q = d.next_point(p, frames, token, class, h_new, c_new);
    if q.time > p.time {
        assert(q.time * limit >= (p.time + 1) * limit) by (nonlinear_arith)
            requires
                q.time >= p.time + 1,
                limit >= 1,
        ;
        assert((p.time + 1) * limit == p.time * limit + limit) by (nonlinear_arith);
    }
    assert forall|i: int| 0 <= i < q.tokens.len() implies #[trigger] q.tokens[i] as usize
        != d.blank_idx by {
        if i < p.tokens.len() {
            assert(q.tokens[i] == p.tokens[i]);
        }
    }
}

/// However decoding runs, the hypothesis holds no blank and at most as many tokens as the frames
/// may give.
pub proof fn law_runs_are_bounded(
    d: TdtGreedyDecoder,
    encoder: Array,
    net: PredictionNet,
    joint: JointNetwork,
    run: Seq<TdtPoint>,
    k: int,
)
    requires
        d.is_run(encoder, net, joint, run),
        0 <= k < run.len(),
    ensures
        reachable(d, run[k]),
        run[k].time <= encoder.dims[0],
    decreases k,
{
    if k > 0 {
        law_runs_are_bounded(d, encoder, net, joint, run, k - 1);
        assert(d.steps_to(encoder, net, joint, run[k - 1], run[k]));
        let s = choose|s: TdtStep| #[trigger]
            d.step_by(encoder, net, joint, run[k - 1], s, run[k]);
        assert(run[k - 1].time < encoder.dims[0]);
        law_step_makes_progress(
            d,
            run[k - 1],
            encoder.dims[0] as nat,
            s.token,
            s.class,
            s.h_new,
            s.c_new,
        );
    }
}

/// A blank moves on by exactly as many frames as the table of durations says, but by one where it says
/// none or has no entry, and never past the last frame. It leaves the hypothesis, the last token and the
/// state of the prediction network as they are.
pub proof fn law_blank_skips_its_duration(
    d: TdtGreedyDecoder,
    p: TdtPoint,
    frames: nat,
    token: u32,
    class: u32,
    h_new: Seq<Array>,
    c_new: Seq<Array>,
)
    requires
        p.time < frames,
        token as int == d.blank_idx as int,
    ensures
        ({
            let q = d.next_point(p, frames, token, class, h_new, c_new);
            &&& (class as int) < d.durations@.len() && d.durations@[class as int] >= 1 && p.time
                + d.durations@[class as int] <= frames ==> q.time - p.time
                == d.durations@[class as int]
            &&& (class as int) < d.durations@.len() && d.durations@[class as int] >= 1 && p.time
                + d.durations@[class as int] > frames ==> q.time == frames
            &&& (class as int) < d.durations@.len() && d.durations@[class as int] == 0 ==> q.time
                - p.time == 1
            &&& (class as int) >= d.durations@.len() ==> q.time - p.time == 1
            &&& q.symbols == 0
            &&& q.tokens == p.tokens
            &&& q.last_token == p.last_token
            &&& q.h == p.h
            &&& q.c == p.c
        }),
{
}

/// A token joins the end of the hypothesis, is what the prediction network gets next, and moves its state
/// on. A duration of frames moves on by exactly as many, never past the last one. Without a duration the
/// frame stays and has given one token more, unless that was the last one it may give: then the next frame
/// is taken.
pub proof fn law_token_joins_and_skips(
    d: TdtGreedyDecoder,
    p: TdtPoint,
    frames: nat,
    token: u32,
    class: u32,
    h_new: Seq<Array>,
    c_new: Seq<Array>,
)
    requires
        p.time < frames,
        token as int != d.blank_idx as int,
    ensures
        ({
            let q = d.next_point(p, frames, token, class, h_new, c_new);
            &&& q.tokens.len() == p.tokens.len() + 1
            &&& q.tokens[p.tokens.len() as int] == token
            &&& q.tokens.take(p.tokens.len() as int) == p.tokens
            &&& q.last_token == token
            &&& q.h == h_new
            &&& q.c == c_new
            &&& (class as int) < d.durations@.len() && d.durations@[class as int] >= 1 && p.time
                + d.durations@[class as int] <= frames ==> q.time - p.time
                == d.durations@[class as int] && q.symbols == 0
            &&& (class as int) < d.durations@.len() && d.durations@[class as int] >= 1 && p.time
                + d.durations@[class as int] > frames ==> q.time == frames && q.symbols == 0
            &&& (class as int) >= d.durations@.len() ==> q.time - p.time == 1 && q.symbols == 0
            &&& (class as int) < d.durations@.len() && d.durations@[class as int] == 0 && p.symbols
                + 1 < d.max_symbols_per_step ==> q.time == p.time && q.symbols - p.symbols == 1
            &&& (class as int) < d.durations@.len() && d.durations@[class as int] == 0 && p.symbols
                + 1 >= d.max_symbols_per_step ==> q.time - p.time == 1 && q.symbols == 0
        }),
{
    let q = d.next_point(p, frames, token, class, h_new, c_new);
    assert(q.tokens.take(p.tokens.len() as int) =~= p.tokens);
}

/// The token and the duration of a step have the greatest scores that the networks gave for a frame behind a
/// hypothesis. The frame is the row of the encoder's output at which decoding stands, and the prediction is
/// made from the last token of the hypothesis, or from the blank where there is none yet.
pub open spec fn best_choice(
    encoder: Array,
    net: PredictionNet,
    joint: JointNetwork,
    blank: usize,
    p: TdtPoint,
    s: TdtStep,
    frame: Array,
) -> bool {
    let last = if p.tokens.len() == 0 {
        blank as u32
    } else {
        p.tokens[p.tokens.len() - 1]
    };
    &&& frame.dims == encoder.dims.skip(1)
    &&& frame.elems.len() == volume(encoder.dims.skip(1))
    &&& forall|j: int|
        0 <= j < frame.elems.len() ==> #[trigger] frame.elems[j] == encoder.elems[p.time * volume(
            encoder.dims.skip(1),
        ) + j]
    &&& prediction_result(net, last, p.h, p.c, s.prediction, s.h_new, s.c_new)
    &&& joint_result(joint, frame, s.prediction, s.token_scores, s.duration_scores)
    &&& (s.token as int) < s.token_scores.elems.len()
    &&& (s.class as int) < s.duration_scores.elems.len()
    &&& greatest_at(s.token_scores, s.token as int)
    &&& greatest_at(s.duration_scores, s.class as int)
}

/// No entry of a vector of single-precision numbers is greater than the one at `k`.
pub open spec fn greatest_at(scores: Array, k: int) -> bool {
    scores.kind == single() && scores.elems.len() <= u32::MAX && (forall|i: int|
        0 <= i < scores.elems.len() ==> is_number(single(), #[trigger] scores.elems[i]))
        ==> forall|i: int|
        0 <= i < scores.elems.len() ==> rank_of(single(), #[trigger] scores.elems[i]) <= rank_of(
            single(),
            scores.elems[k],
        )
}

/// Each step of a run reads the frame that it stands at, behind the last token of the hypothesis, or the
/// blank where there is none yet, and chooses the token and the duration with the greatest scores. A blank
/// leaves the hypothesis and the state; a token joins it and moves the state on.
pub proof fn law_runs_follow_the_best_choices(
    d: TdtGreedyDecoder,
    encoder: Array,
    net: PredictionNet,
    joint: JointNetwork,
    run: Seq<TdtPoint>,
    k: int,
)
    requires
        d.is_run(encoder, net, joint, run),
        encoder.dims.len() >= 1,
        encoder.elems.len() == volume(encoder.dims),
        0 <= k < run.len() - 1,
    ensures
        exists|s: TdtStep, frame: Array|
            {
                &&& #[trigger] best_choice(encoder, net, joint, d.blank_idx, run[k], s, frame)
                &&& s.token as int == d.blank_idx as int ==> run[k + 1].tokens == run[k].tokens
                    && run[k + 1].h == run[k].h && run[k + 1].c == run[k].c
                &&& s.token as int != d.blank_idx as int ==> run[k + 1].tokens
                    == run[k].tokens.push(s.token) && run[k + 1].h == s.h_new && run[k + 1].c
                    == s.c_new
                &&& (s.class as int) < d.durations@.len() && d.durations@[s.class as int] >= 1
                    ==> run[k + 1].time == least(
                    run[k].time + d.durations@[s.class as int] as nat,
                    encoder.dims[0] as nat,
                )
                &&& (s.class as int) < d.durations@.len() && d.durations@[s.class as int] == 0
                    ==> run[k].time <= run[k + 1].time <= run[k].time + 1
            },
        run[0].time == 0,
        run[0].tokens.len() == 0,
{
    lemma_last_token(d, encoder, net, joint, run, k);
    assert(d.steps_to(encoder, net, joint, run[k], run[k + 1]));
    let s = choose|s: TdtStep| #[trigger] d.step_by(encoder, net, joint, run[k], s, run[k + 1]);
    let p = run[k];
    assert(p.time < encoder.dims[0]);
    let frame = row_array(encoder, p.time as int);
    let inner = volume(encoder.dims.skip(1)) as int;
    lemma_volume_rows(encoder.dims);
    assert(0 <= p.time * inner && p.time * inner + inner <= encoder.dims[0] * inner) by (nonlinear_arith)
        requires
            0 <= p.time < encoder.dims[0],
            inner >= 0,
    ;
    assert(best_choice(encoder, net, joint, d.blank_idx, p, s, frame));
}

/// The prediction network gets the last token of the hypothesis, or the blank where there is none yet.
proof fn lemma_last_token(
    d: TdtGreedyDecoder,
    encoder: Array,
    net: PredictionNet,
    joint: JointNetwork,
    run: Seq<TdtPoint>,
    k: int,
)
    requires
        d.is_run(encoder, net, joint, run),
        0 <= k < run.len(),
    ensures
        run[k].last_token == if run[k].tokens.len() == 0 {
            d.blank_idx as u32
        } else {
            run[k].tokens[run[k].tokens.len() - 1]
        },
    decreases k,
{
    if k > 0 {
        lemma_last_token(d, encoder, net, joint, run, k - 1);
        assert(d.steps_to(encoder, net, joint, run[k - 1], run[k]));
        let s = choose|s: TdtStep| #[trigger]
            d.step_by(encoder, net, joint, run[k - 1], s, run[k]);
    }
}

impl TdtGreedyDecoder {
    /// A decoder with these settings.
    pub fn new(config: &TdtConfig, blank_idx: usize) -> (r: TdtGreedyDecoder)
        ensures
            r.durations@ == config.durations@,
            r.max_symbols_per_step == config.max_symbols_per_step,
            r.blank_idx == blank_idx,
    {
        TdtGreedyDecoder {
            durations: config.durations.clone(),
            max_symbols_per_step: config.max_symbols_per_step,
            blank_idx,
        }
    }

    /// The cursor before the first step.
    pub fn start(&self) -> (r: TdtCursor)
        ensures
            r.time == 0,
            r.symbols == 0,
            r.last_token == self.blank_idx as u32,
            r.tokens@ == Seq::<u32>::empty(),
    {
        TdtCursor {
            time: 0,
            symbols: 0,
            last_token: self.blank_idx as u32,
            tokens: Vec::new(),
        }
    }

    /// Moves the cursor on after a step that chose `token` and the duration `class`. Tells whether
    /// the state of the prediction network moves on too.
    pub fn advance(&self, cursor: &mut TdtCursor, frames: usize, token: u32, class: u32) -> (moved:
        bool)
        requires
            old(cursor).time < frames,
            old(cursor).symbols < frame_limit(self.max_symbols_per_step),
        ensures
            moved == (token as usize != self.blank_idx),
            token as int == self.blank_idx as int ==> final(cursor).tokens@ == old(cursor).tokens@
                && final(cursor).last_token == old(cursor).last_token,
            token as int != self.blank_idx as int ==> final(cursor).tokens@ == old(cursor).tokens@.push(token) && final(cursor).last_token == token,
            (class as int) < self.durations@.len() && self.durations@[class as int] >= 1 ==> final(cursor).time == if old(cursor).time + self.durations@[class as int] <= frames {
                old(cursor).time + self.durations@[class as int]
            } else {
                frames as int
            },
            token as int == self.blank_idx as int && (class as int) < self.durations@.len()
                && self.durations@[class as int] == 0 ==> final(cursor).time == old(cursor).time
                + 1,
            (class as int) >= self.durations@.len() ==> final(cursor).time == old(cursor).time + 1,
            forall|h: Seq<Array>, c: Seq<Array>, h_new: Seq<Array>, c_new: Seq<Array>|
                #![trigger self.next_point(old(cursor).point(h, c), frames as nat, token, class,
                    h_new, c_new)]
                self.next_point(
                    old(cursor).point(h, c),
                    frames as nat,
                    token,
                    class,
                    h_new,
                    c_new,
                ) == final(cursor).point(
                    if moved { h_new } else { h },
                    if moved { c_new } else { c },
                ),
    {
        let skip: usize = if (class as usize) < self.durations.len() {
            self.durations[class as usize]
        } else {
            1
        };
        let left: usize = frames - cursor.time;
        if token as usize == self.blank_idx {
            let forward: usize = if skip >= 1 { skip } else { 1 };
            cursor.time = if forward >= left { frames } else { cursor.time + forward };
            cursor.symbols = 0;
            false
        } else {
            cursor.tokens.push(token);
            cursor.last_token = token;
            if skip > 0 {
                cursor.time = if skip >= left { frames } else { cursor.time + skip };
                cursor.symbols = 0;
            } else if cursor.symbols + 1 >= self.max_symbols_per_step {
                cursor.time = cursor.time + 1;
                cursor.symbols = 0;
            } else {
                cursor.symbols = cursor.symbols + 1;
            }
            true
        }
    }

    /// The token and the duration class that the next step chooses, and the state behind it.
    fn look(
        &self,
        encoder_output: &Tensor,
        net: &PredictionNet,
        joint: &JointNetwork,
        cursor: &TdtCursor,
        state: &LstmState,
    ) -> (r: Result<(u32, u32, LstmState, Ghost<TdtStep>), Error>)
        requires
            net.wf(),
            joint.wf(),
            tensor_dims(*encoder_output).len() >= 1,
            state.h@.len() == net.lstm_layers@.len(),
            state.c@.len() == net.lstm_layers@.len(),
        ensures
            r matches Ok((token, class, next, s)) ==> {
                let p = cursor.point(arrays(state.h@), arrays(state.c@));
                &&& s@.token == token
                &&& s@.class == class
                &&& s@.h_new == arrays(next.h@)
                &&& s@.c_new == arrays(next.c@)
                &&& next.h@.len() == net.lstm_layers@.len()
                &&& next.c@.len() == net.lstm_layers@.len()
                &&& self.stepped(
                    array(*encoder_output),
                    *net,
                    *joint,
                    p,
                    s@,
                    self.next_point(
                        p,
                        tensor_dims(*encoder_output)[0] as nat,
                        token,
                        class,
                        s@.h_new,
                        s@.c_new,
                    ),
                )
            },
            r is Err ==> self.held_up(
                array(*encoder_output),
                *net,
                *joint,
                cursor.point(arrays(state.h@), arrays(state.c@)),
            ),
    {
        proof {
            reveal(TdtGreedyDecoder::stepped);
            reveal(TdtGreedyDecoder::held_up);
        }
        let frame = row(encoder_output, cursor.time)?;
        let (prediction, next) = net.step(cursor.last_token, state)?;
        let (token_scores, duration_scores) = joint.forward(&frame, &prediction)?;
        let token = argmax(&token_scores)?;
        let class = argmax(&duration_scores)?;
        let ghost s = TdtStep {
            prediction: array(prediction),
            h_new: arrays(next.h@),
            c_new: arrays(next.c@),
            token_scores: array(token_scores),
            duration_scores: array(duration_scores),
            token,
            class,
        };
        assert(s.h_new.len() == next.h@.len() && s.c_new.len() == next.c@.len());
        Ok((token, class, next, Ghost(s)))
    }

    /// Decodes the frames of an encoder, one row each.
    pub fn decode(
        &self,
        encoder_output: &Tensor,
        prediction_net: &PredictionNet,
        joint: &JointNetwork,
    ) -> (r: Result<TdtResult, Error>)
        requires
            prediction_net.wf(),
            joint.wf(),
        ensures
            r is Ok ==> tensor_dims(*encoder_output).len() >= 1,
            r matches Ok(result) ==> exists|run: Seq<TdtPoint>| #[trigger]
                self.is_run(array(*encoder_output), *prediction_net, *joint, run)
                    && result.tokens@ == run.last().tokens,
            r matches Ok(result) ==> result.tokens@.len() <= tensor_dims(*encoder_output)[0]
                * frame_limit(self.max_symbols_per_step),
            r matches Ok(result) ==> forall|i: int|
                0 <= i < result.tokens@.len() ==> #[trigger] result.tokens@[i] as usize
                    != self.blank_idx,
            r is Err ==> self.decoding_refused(array(*encoder_output), *prediction_net, *joint),
    {
        let frames: usize = extent(encoder_output, 0)?;
        let mut state = prediction_net.initial_state(device_of(encoder_output))?;
        let mut cursor = self.start();
        let ghost encoder = array(*encoder_output);
        let ghost mut run: Seq<TdtPoint> = seq![
            cursor.point(arrays(state.h@), arrays(state.c@)),
        ];
        assert(arrays(state.h@).len() == state.h@.len());
        assert(arrays(state.c@).len() == state.c@.len());
        assert(run[0].tokens =~= Seq::<u32>::empty());
        proof {
            lemma_run_begins(*self, encoder, *prediction_net, *joint, run[0]);
            assert(run =~= seq![run[0]]);
        }
        while cursor.time < frames
            invariant
                prediction_net.wf(),
                joint.wf(),
                tensor_dims(*encoder_output).len() >= 1,
                encoder == array(*encoder_output),
                frames == encoder.dims[0],
                state.h@.len() == prediction_net.lstm_layers@.len(),
                state.c@.len() == prediction_net.lstm_layers@.len(),
                cursor.time <= frames,
                reachable(*self, run.last()),
                run.len() > 0,
                run.last() == cursor.point(arrays(state.h@), arrays(state.c@)),
                self.so_far(encoder, *prediction_net, *joint, run),
            decreases frames - cursor.time, self.max_symbols_per_step - cursor.symbols,
        {
            let ghost p = cursor.point(arrays(state.h@), arrays(state.c@));
            let (token, class, next, Ghost(s)) = match self.look(
                encoder_output,
                prediction_net,
                joint,
                &cursor,
                &state,
            ) {
                Ok(found) => found,
                Err(e) => {
                    proof {
                        lemma_run_ends(*self, encoder, *prediction_net, *joint, run);
                    }
                    return Err(e);
                },
            };
            let ghost q = self.next_point(p, frames as nat, token, class, s.h_new, s.c_new);
            proof {
                law_step_makes_progress(*self, p, frames as nat, token, class, s.h_new, s.c_new);
            }
            let moved = self.advance(&mut cursor, frames, token, class);
            if moved {
                state = next;
            }
            proof {
                assert(q == cursor.point(arrays(state.h@), arrays(state.c@)));
                lemma_run_goes_on(*self, encoder, *prediction_net, *joint, run, s, q);
                run = run.push(q);
                assert(arrays(state.h@).len() == state.h@.len());
                assert(arrays(state.c@).len() == state.c@.len());
            }
        }
        proof {
            lemma_run_ends(*self, encoder, *prediction_net, *joint, run);
            law_runs_are_bounded(*self, encoder, *prediction_net, *joint, run, run.len() - 1);
            let limit = frame_limit(self.max_symbols_per_step) as int;
            let last = run.last();
            if last.symbols > 0 {
                assert(run.len() > 1);
                lemma_last_frame_left(*self, encoder, *prediction_net, *joint, run);
            }
        }
        Ok(TdtResult { tokens: cursor.tokens })
    }
}

/// When the frames are used up, nothing is left over from the last one.
proof fn lemma_last_frame_left(
    d: TdtGreedyDecoder,
    encoder: Array,
    net: PredictionNet,
    joint: JointNetwork,
    run: Seq<TdtPoint>,
)
    requires
        d.is_run(encoder, net, joint, run),
    ensures
        run.last().symbols == 0,
{
    let k = run.len() - 1;
    if k > 0 {
        assert(d.steps_to(encoder, net, joint, run[k - 1], run[k]));
        let s = choose|s: TdtStep| #[trigger]
            d.step_by(encoder, net, joint, run[k - 1], s, run[k]);
        assert(run[k - 1].time < encoder.dims[0]);
    }
}

} // verus!
