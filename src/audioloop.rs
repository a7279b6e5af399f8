//! The block-buffering adapter between frame-granular hosts and the engine's fixed block size.
//!
//! The engine computes audio one block of `blocksize` frames at a time, while the host asks for
//! one frame per call. [`AudioLoop`] gathers the host's input frames into a block and hands out,
//! frame by frame, the block that the engine computed last. When a whole block has been gathered
//! ([`AudioLoop::block_pending`]), the caller runs the engine on [`AudioLoop::input_block`] and
//! hands the result to [`AudioLoop::complete_block`] before asking for the next frame. This puts
//! exactly one block of latency between an input frame and the output computed from it.
use vstd::arithmetic::div_mod::{
    lemma_fundamental_div_mod, lemma_fundamental_div_mod_converse, lemma_mod_pos_bound,
};
use vstd::prelude::*;

verus! {

/// How the samples of one block lie in the buffers exchanged with the engine.
#[derive(Clone, Copy, Debug, PartialEq, Eq, Structural)]
pub enum BufferLayout {
    /// Frame after frame: the channels of one frame lie next to each other.
    Interleaved,
    /// Channel after channel: the samples of one channel for the whole block lie next to each
    /// other.
    Planar,
}

/// Position of the sample of `channel` in frame `frame`, in a block of `channels` channels and
/// `blocksize` frames.
pub open spec fn sample_index(
    layout: BufferLayout,
    channel: int,
    frame: int,
    channels: int,
    blocksize: int,
) -> int {
    match layout {
        BufferLayout::Interleaved => frame * channels + channel,
        BufferLayout::Planar => channel * blocksize + frame,
    }
}

/// The frame that position `i` of a block belongs to.
pub open spec fn frame_of(layout: BufferLayout, i: int, channels: int, blocksize: int) -> int {
    match layout {
        BufferLayout::Interleaved => i / channels,
        BufferLayout::Planar => i % blocksize,
    }
}

/// The channel that position `i` of a block belongs to.
pub open spec fn channel_of(layout: BufferLayout, i: int, channels: int, blocksize: int) -> int {
    match layout {
        BufferLayout::Interleaved => i % channels,
        BufferLayout::Planar => i / blocksize,
    }
}

/// The samples of frame `frame` of `block`, one per channel.
pub open spec fn column<T>(
    block: Seq<T>,
    layout: BufferLayout,
    frame: int,
    channels: nat,
    blocksize: nat,
) -> Seq<T> {
    Seq::new(
        channels,
        |c: int| block[sample_index(layout, c, frame, channels as int, blocksize as int)],
    )
}

/// `block` with the samples of frame `frame` replaced by `samples`.
pub open spec fn with_column<T>(
    block: Seq<T>,
    layout: BufferLayout,
    frame: int,
    channels: nat,
    blocksize: nat,
    samples: Seq<T>,
) -> Seq<T> {
    Seq::new(
        block.len(),
        |i: int|
            if frame_of(layout, i, channels as int, blocksize as int) == frame {
                samples[channel_of(layout, i, channels as int, blocksize as int)]
            } else {
                block[i]
            },
    )
}

/// What an adapter holds: its sizes, the frame it is at, the input gathered for the next block
/// and the last block that the engine computed.
pub struct LoopState<T> {
    pub layout: BufferLayout,
    pub silence: T,
    pub blocksize: nat,
    pub in_channels: nat,
    pub out_channels: nat,
    pub offset: nat,
    pub input: Seq<T>,
    pub output: Seq<T>,
}

impl<T> LoopState<T> {
    pub open spec fn well_formed(self) -> bool {
        &&& self.offset <= self.blocksize
        &&& self.blocksize <= u16::MAX
        &&& self.in_channels <= u16::MAX
        &&& self.out_channels <= u16::MAX
        &&& self.input.len() == self.blocksize * self.in_channels
        &&& self.output.len() == self.blocksize * self.out_channels
    }

    /// The state right after the buffers were sized: at the first frame, everything silent.
    pub open spec fn fresh(
        layout: BufferLayout,
        silence: T,
        blocksize: nat,
        in_channels: nat,
        out_channels: nat,
    ) -> Self {
        LoopState {
            layout,
            silence,
            blocksize,
            in_channels,
            out_channels,
            offset: 0,
            input: Seq::new(blocksize * in_channels, |i: int| silence),
            output: Seq::new(blocksize * out_channels, |i: int| silence),
        }
    }

    /// A whole block of input has been gathered and must go through the engine before the next
    /// frame.
    pub open spec fn block_pending(self) -> bool {
        self.offset == self.blocksize
    }

    /// The frame that the next call hands out: frame `offset` of the last computed block.
    pub open spec fn current_output(self) -> Seq<T> {
        column(self.output, self.layout, self.offset as int, self.out_channels, self.blocksize)
    }

    /// The state after `frame` was taken in at the current offset.
    pub open spec fn after_frame(self, frame: Seq<T>) -> Self {
        LoopState {
            offset: self.offset + 1,
            input: with_column(
                self.input,
                self.layout,
                self.offset as int,
                self.in_channels,
                self.blocksize,
                frame,
            ),
            ..self
        }
    }

    /// The state after the engine computed `block` from the gathered input.
    pub open spec fn after_block(self, block: Seq<T>) -> Self {
        LoopState { offset: 0, output: block, ..self }
    }

    /// Feeding `frames` one after another: the state reached and the frames handed out.
    pub open spec fn run(self, frames: Seq<Seq<T>>) -> (Self, Seq<Seq<T>>)
        decreases frames.len(),
    {
        if frames.len() == 0 {
            (self, Seq::empty())
        } else {
            let (s, outs) = self.run(frames.drop_last());
            (s.after_frame(frames.last()), outs.push(s.current_output()))
        }
    }
}

proof fn lemma_index_inverse(layout: BufferLayout, c: int, f: int, ch: int, bs: int)
    requires
        0 <= c < ch,
        0 <= f < bs,
    ensures
        0 <= sample_index(layout, c, f, ch, bs) < bs * ch,
        frame_of(layout, sample_index(layout, c, f, ch, bs), ch, bs) == f,
        channel_of(layout, sample_index(layout, c, f, ch, bs), ch, bs) == c,
{
    match layout {
        BufferLayout::Interleaved => {
            assert(0 <= f * ch + c < bs * ch) by (nonlinear_arith)
                requires
                    0 <= c < ch,
                    0 <= f < bs,
            ;
            lemma_fundamental_div_mod_converse(f * ch + c, ch, f, c);
        },
        BufferLayout::Planar => {
            assert(0 <= c * bs + f < bs * ch) by (nonlinear_arith)
                requires
                    0 <= c < ch,
                    0 <= f < bs,
            ;
            lemma_fundamental_div_mod_converse(c * bs + f, bs, c, f);
        },
    }
}

proof fn lemma_position_split(layout: BufferLayout, i: int, ch: int, bs: int)
    requires
        0 <= ch,
        0 <= bs,
        0 <= i < bs * ch,
    ensures
        0 <= channel_of(layout, i, ch, bs) < ch,
        0 <= frame_of(layout, i, ch, bs) < bs,
        i == sample_index(layout, channel_of(layout, i, ch, bs), frame_of(layout, i, ch, bs), ch, bs),
{
    assert(ch > 0 && bs > 0) by (nonlinear_arith)
        requires
            0 <= ch,
            0 <= bs,
            0 <= i < bs * ch,
    ;
    match layout {
        BufferLayout::Interleaved => {
            lemma_fundamental_div_mod(i, ch);
            lemma_mod_pos_bound(i, ch);
            let q = i / ch;
            let r = i % ch;
            assert(i == q * ch + r) by (nonlinear_arith)
                requires
                    i == ch * q + r,
            ;
            assert(0 <= q < bs) by (nonlinear_arith)
                requires
                    i == ch * q + r,
                    0 <= r < ch,
                    0 <= i < bs * ch,
            ;
        },
        BufferLayout::Planar => {
            lemma_fundamental_div_mod(i, bs);
            lemma_mod_pos_bound(i, bs);
            let q = i / bs;
            let r = i % bs;
            assert(i == q * bs + r) by (nonlinear_arith)
                requires
                    i == bs * q + r,
            ;
            assert(0 <= q < ch) by (nonlinear_arith)
                requires
                    i == bs * q + r,
                    0 <= r < bs,
                    0 <= i < bs * ch,
            ;
        },
    }
}

/// Replacing frame `f` of a block changes what is read back from frame `f` and nothing else.
proof fn lemma_column_of_with_column<T>(
    block: Seq<T>,
    layout: BufferLayout,
    f: int,
    k: int,
    ch: nat,
    bs: nat,
    samples: Seq<T>,
)
    requires
        block.len() == bs * ch,
        samples.len() == ch,
        0 <= f < bs,
        0 <= k < bs,
    ensures
        column(with_column(block, layout, f, ch, bs, samples), layout, k, ch, bs) == if k == f {
            samples
        } else {
            column(block, layout, k, ch, bs)
        },
{
    let w = with_column(block, layout, f, ch, bs, samples);
    assert forall|c: int| 0 <= c < ch implies #[trigger] column(w, layout, k, ch, bs)[c] == (if k
        == f {
        samples
    } else {
        column(block, layout, k, ch, bs)
    })[c] by {
        lemma_index_inverse(layout, c, k, ch as int, bs as int);
    }
    assert(column(w, layout, k, ch, bs) =~= if k == f {
        samples
    } else {
        column(block, layout, k, ch, bs)
    });
}

/// Feeding `frames` from the start of a block: each call hands out the matching frame of the
/// last computed block, and the gathered input holds the frames fed so far, in order.
proof fn lemma_run_prefix<T>(s: LoopState<T>, frames: Seq<Seq<T>>)
    requires
        s.well_formed(),
        s.offset == 0,
        frames.len() <= s.blocksize,
        forall|k: int| 0 <= k < frames.len() ==> (#[trigger] frames[k]).len() == s.in_channels,
    ensures
        s.run(frames).0.well_formed(),
        s.run(frames).0.offset == frames.len(),
        s.run(frames).0.output == s.output,
        s.run(frames).0.layout == s.layout,
        s.run(frames).0.blocksize == s.blocksize,
        s.run(frames).0.in_channels == s.in_channels,
        s.run(frames).0.out_channels == s.out_channels,
        s.run(frames).1.len() == frames.len(),
        forall|k: int|
            0 <= k < frames.len() ==> #[trigger] s.run(frames).1[k] == column(
                s.output,
                s.layout,
                k,
                s.out_channels,
                s.blocksize,
            ),
        forall|k: int|
            0 <= k < frames.len() ==> #[trigger] column(
                s.run(frames).0.input,
                s.layout,
                k,
                s.in_channels,
                s.blocksize,
            ) == frames[k],
    decreases frames.len(),
{
    if frames.len() > 0 {
        let prev = frames.drop_last();
        lemma_run_prefix(s, prev);
        let (p, outs) = s.run(prev);
        let n = prev.len() as int;
        let next = p.after_frame(frames.last());
        assert forall|k: int| 0 <= k < frames.len() implies #[trigger] column(
            next.input,
            s.layout,
            k,
            s.in_channels,
            s.blocksize,
        ) == frames[k] by {
            lemma_column_of_with_column(
                p.input,
                s.layout,
                n,
                k,
                s.in_channels,
                s.blocksize,
                frames.last(),
            );
            if k < n {
                assert(prev[k] == frames[k]);
            }
        }
        assert forall|k: int| 0 <= k < frames.len() implies #[trigger] s.run(frames).1[k] == column(
            s.output,
            s.layout,
            k,
            s.out_channels,
            s.blocksize,
        ) by {
            if k < n {
                assert(outs[k] == column(s.output, s.layout, k, s.out_channels, s.blocksize));
            }
        }
    }
}

/// Feeding `a` and then `b` is feeding `a + b`: consecutive calls of
/// [`AudioLoop::next_frame`], each of which is one step of [`LoopState::run`], compose into one
/// run over all the frames fed, with the frames handed out in order.
pub proof fn lemma_run_concat<T>(s: LoopState<T>, a: Seq<Seq<T>>, b: Seq<Seq<T>>)
    ensures
        s.run(a + b) == (s.run(a).0.run(b).0, s.run(a).1 + s.run(a).0.run(b).1),
    decreases b.len(),
{
    if b.len() == 0 {
        assert(a + b =~= a);
        assert(s.run(a).1 + Seq::<Seq<T>>::empty() =~= s.run(a).1);
    } else {
        lemma_run_concat(s, a, b.drop_last());
        assert((a + b).drop_last() =~= a + b.drop_last());
        assert((a + b).last() == b.last());
        let m = s.run(a).0;
        let (p, outs) = m.run(b.drop_last());
        assert(s.run(a).1 + outs.push(p.current_output()) =~= (s.run(a).1 + outs).push(
            p.current_output(),
        ));
    }
}

/// One block's worth of frames, fed from the start of a block, are handed back the last block
/// the engine computed, frame by frame, and leave behind a pending block whose frames are exactly
/// the frames fed, in order.
pub proof fn lemma_block_round<T>(s: LoopState<T>, frames: Seq<Seq<T>>)
    requires
        s.well_formed(),
        s.offset == 0,
        frames.len() == s.blocksize,
        forall|k: int| 0 <= k < frames.len() ==> (#[trigger] frames[k]).len() == s.in_channels,
    ensures
        s.run(frames).0.well_formed(),
        s.run(frames).0.block_pending(),
        s.run(frames).0.output == s.output,
        s.run(frames).0.layout == s.layout,
        s.run(frames).0.blocksize == s.blocksize,
        s.run(frames).0.in_channels == s.in_channels,
        s.run(frames).0.out_channels == s.out_channels,
        forall|k: int|
            0 <= k < frames.len() ==> #[trigger] s.run(frames).1[k] == column(
                s.output,
                s.layout,
                k,
                s.out_channels,
                s.blocksize,
            ),
        forall|k: int|
            0 <= k < frames.len() ==> #[trigger] column(
                s.run(frames).0.input,
                s.layout,
                k,
                s.in_channels,
                s.blocksize,
            ) == frames[k],
{
    lemma_run_prefix(s, frames);
}

/// From freshly sized buffers, the first `blocksize` frames handed out are silence; once the
/// engine has computed `processed` from the first block gathered, whose frames are exactly the
/// first frames fed, the next `blocksize` frames handed out are the frames of `processed`, in
/// order: one block of latency, always the same.
pub proof fn lemma_one_block_latency<T>(
    layout: BufferLayout,
    silence: T,
    blocksize: nat,
    in_channels: nat,
    out_channels: nat,
    first: Seq<Seq<T>>,
    processed: Seq<T>,
    second: Seq<Seq<T>>,
)
    requires
        0 < blocksize <= u16::MAX,
        in_channels <= u16::MAX,
        out_channels <= u16::MAX,
        first.len() == blocksize,
        second.len() == blocksize,
        forall|k: int| 0 <= k < blocksize ==> (#[trigger] first[k]).len() == in_channels,
        forall|k: int| 0 <= k < blocksize ==> (#[trigger] second[k]).len() == in_channels,
        processed.len() == blocksize * out_channels,
    ensures
        ({
            let s0 = LoopState::fresh(layout, silence, blocksize, in_channels, out_channels);
            let (s1, outs1) = s0.run(first);
            let (s2, outs2) = s1.after_block(processed).run(second);
            &&& s1.block_pending()
            &&& forall|k: int|
                0 <= k < blocksize ==> #[trigger] outs1[k] == Seq::new(
                    out_channels,
                    |c: int| silence,
                )
            &&& forall|k: int|
                0 <= k < blocksize ==> #[trigger] column(
                    s1.input,
                    layout,
                    k,
                    in_channels,
                    blocksize,
                ) == first[k]
            &&& forall|k: int|
                0 <= k < blocksize ==> #[trigger] outs2[k] == column(
                    processed,
                    layout,
                    k,
                    out_channels,
                    blocksize,
                )
        }),
{
    let s0 = LoopState::fresh(layout, silence, blocksize, in_channels, out_channels);
    assert(s0.well_formed());
    lemma_block_round(s0, first);
    let (s1, outs1) = s0.run(first);
    assert forall|k: int| 0 <= k < blocksize implies #[trigger] outs1[k] == Seq::new(
        out_channels,
        |c: int| silence,
    ) by {
        assert forall|c: int| 0 <= c < out_channels implies #[trigger] column(
            s0.output,
            layout,
            k,
            out_channels,
            blocksize,
        )[c] == silence by {
            lemma_index_inverse(layout, c, k, out_channels as int, blocksize as int);
        }
        assert(column(s0.output, layout, k, out_channels, blocksize) =~= Seq::new(
            out_channels,
            |c: int| silence,
        ));
    }
    let s2 = s1.after_block(processed);
    lemma_block_round(s2, second);
}

/// The error of a frame handed to the adapter.
#[derive(Clone, Copy, Debug, PartialEq, Eq, Structural)]
pub enum Error {
    /// The size of the input frame differs from the number of input channels.
    WrongInFrameSize,
}

impl Error {
    /// A sentence that describes the error.
    pub fn message(&self) -> (r: &'static str)
        ensures
            r@ == "Wrong input frame size. The size should be equal to the number of input channels."@,
    {
        match self {
            Error::WrongInFrameSize => {
                "Wrong input frame size. The size should be equal to the number of input channels."
            },
        }
    }
}

/// The block-buffering adapter, for samples of type `T`.
pub struct AudioLoop<T> {
    layout: BufferLayout,
    silence: T,
    frame_offset: usize,
    in_ch_num: usize,
    out_ch_num: usize,
    blocksize: usize,
    in_buf: Vec<T>,
    out_buf: Vec<T>,
    out_frame: Vec<T>,
}

/// The adapter for 16-bit integer samples.
pub type AudioLoopI16 = AudioLoop<i16>;

impl<T> View for AudioLoop<T> {
    type V = LoopState<T>;

    closed spec fn view(&self) -> LoopState<T> {
        LoopState {
            layout: self.layout,
            silence: self.silence,
            blocksize: self.blocksize as nat,
            in_channels: self.in_ch_num as nat,
            out_channels: self.out_ch_num as nat,
            offset: self.frame_offset as nat,
            input: self.in_buf@,
            output: self.out_buf@,
        }
    }
}

fn silent_buffer<T: Copy>(silence: T, len: usize) -> (r: Vec<T>)
    ensures
        r@ == Seq::new(len as nat, |i: int| silence),
{
    let mut buf: Vec<T> = Vec::new();
    let mut n: usize = 0;
    while n < len
        invariant
            n <= len,
            buf@ == Seq::new(n as nat, |i: int| silence),
        decreases len - n,
    {
        buf.push(silence);
        n = n + 1;
        assert(buf@ =~= Seq::new(n as nat, |i: int| silence));
    }
    buf
}

impl<T: Copy> AudioLoop<T> {
    /// The adapter's own invariant: its state is well formed and the frame it hands out has one
    /// sample per output channel.
    pub closed spec fn wf(&self) -> bool {
        &&& self@.well_formed()
        &&& self.out_frame@.len() == self.out_ch_num
    }

    /// An adapter of no channels and an empty block, that fills its buffers with `silence`.
    pub fn new(layout: BufferLayout, silence: T) -> (r: Self)
        ensures
            r.wf(),
            r@ == LoopState::fresh(layout, silence, 0, 0, 0),
    {
        let r = AudioLoop {
            layout,
            silence,
            frame_offset: 0,
            in_ch_num: 0,
            out_ch_num: 0,
            blocksize: 0,
            in_buf: Vec::new(),
            out_buf: Vec::new(),
            out_frame: Vec::new(),
        };
        assert(r@.input =~= Seq::new(0, |i: int| silence));
        assert(r@.output =~= Seq::new(0, |i: int| silence));
        r
    }

    /// Sizes the buffers for blocks of `blocksize` frames, `in_ch_num` input and `out_ch_num`
    /// output channels, all silent, and goes back to the first frame of a block. Whatever input
    /// was gathered is dropped.
    pub fn init_buffers(&mut self, blocksize: u16, in_ch_num: u16, out_ch_num: u16)
        ensures
            final(self).wf(),
            final(self)@ == LoopState::fresh(
                old(self)@.layout,
                old(self)@.silence,
                blocksize as nat,
                in_ch_num as nat,
                out_ch_num as nat,
            ),
    {
        let bs = blocksize as usize;
        let ic = in_ch_num as usize;
        let oc = out_ch_num as usize;
        assert(bs * ic <= 65535 * 65535) by (nonlinear_arith)
            requires
                bs <= 65535,
                ic <= 65535,
        ;
        assert(bs * oc <= 65535 * 65535) by (nonlinear_arith)
            requires
                bs <= 65535,
                oc <= 65535,
        ;
        self.in_ch_num = ic;
        self.out_ch_num = oc;
        self.blocksize = bs;
        self.frame_offset = 0;
        self.in_buf = silent_buffer(self.silence, bs * ic);
        self.out_buf = silent_buffer(self.silence, bs * oc);
        self.out_frame = silent_buffer(self.silence, oc);
    }

    /// The number of frames in a block.
    pub fn blocksize(&self) -> (r: usize)
        ensures
            r == self@.blocksize,
    {
        self.blocksize
    }

    /// The number of samples in an input frame.
    pub fn in_ch_num(&self) -> (r: usize)
        ensures
            r == self@.in_channels,
    {
        self.in_ch_num
    }

    /// The number of samples in an output frame.
    pub fn out_ch_num(&self) -> (r: usize)
        ensures
            r == self@.out_channels,
    {
        self.out_ch_num
    }

    /// Whether a whole block of input is gathered and must go through the engine
    /// ([`AudioLoop::complete_block`]) before the next frame.
    pub fn block_pending(&self) -> (r: bool)
        ensures
            r == self@.block_pending(),
    {
        self.frame_offset == self.blocksize
    }

    /// The input gathered for the engine, laid out as [`BufferLayout`] says.
    pub fn input_block(&self) -> (r: &[T])
        ensures
            r@ == self@.input,
    {
        self.in_buf.as_slice()
    }

    /// Takes `block`, which the engine computed from the gathered input, as the block to hand out
    /// next, and starts gathering a new block.
    pub fn complete_block(&mut self, block: &[T])
        requires
            old(self).wf(),
            block@.len() == old(self)@.output.len(),
        ensures
            final(self).wf(),
            final(self)@ == old(self)@.after_block(block@),
    {
        let mut n: usize = 0;
        while n < block.len()
            invariant
                self.wf(),
                self@ == (LoopState { output: self@.output, ..old(self)@ }),
                n <= block@.len(),
                self@.output.len() == block@.len(),
                forall|i: int| 0 <= i < n ==> self@.output[i] == block@[i],
            decreases block@.len() - n,
        {
            self.out_buf.set(n, block[n]);
            n = n + 1;
        }
        assert(self.out_buf@ =~= block@);
        self.frame_offset = 0;
    }

    /// Writes `in_frame` into the input block at the current frame.
    pub fn update_input(&mut self, in_frame: &[T])
        requires
            old(self).wf(),
            old(self)@.offset < old(self)@.blocksize,
            in_frame@.len() == old(self)@.in_channels,
        ensures
            final(self).wf(),
            final(self)@ == (LoopState { input: old(self)@.after_frame(in_frame@).input, ..old(self)@ }),
    {
        let ghost s = self@;
        let ghost ch = s.in_channels as int;
        let ghost bs = s.blocksize as int;
        let mut n: usize = 0;
        while n < in_frame.len()
            invariant
                self.wf(),
                self@ == (LoopState { input: self@.input, ..s }),
                s.well_formed(),
                ch == s.in_channels,
                bs == s.blocksize,
                s.offset < s.blocksize,
                in_frame@.len() == ch,
                n <= ch,
                self@.input.len() == s.input.len(),
                forall|i: int|
                    0 <= i < s.input.len() ==> #[trigger] self@.input[i] == if frame_of(
                        s.layout,
                        i,
                        ch,
                        bs,
                    ) == s.offset && channel_of(s.layout, i, ch, bs) < n {
                        in_frame@[channel_of(s.layout, i, ch, bs)]
                    } else {
                        s.input[i]
                    },
            decreases ch - n,
        {
            proof {
                lemma_index_inverse(s.layout, n as int, s.offset as int, ch, bs);
                assert(bs * ch <= 65535 * 65535) by (nonlinear_arith)
                    requires
                        0 <= bs <= 65535,
                        0 <= ch,
                        ch <= 65535,
                ;
            }
            let pos = match self.layout {
                BufferLayout::Interleaved => self.frame_offset * self.in_ch_num + n,
                BufferLayout::Planar => n * self.blocksize + self.frame_offset,
            };
            assert(pos == sample_index(s.layout, n as int, s.offset as int, ch, bs));
            self.in_buf.set(pos, in_frame[n]);
            n = n + 1;
            assert forall|i: int| 0 <= i < s.input.len() implies #[trigger] self@.input[i] == if frame_of(
                s.layout,
                i,
                ch,
                bs,
            ) == s.offset && channel_of(s.layout, i, ch, bs) < n {
                in_frame@[channel_of(s.layout, i, ch, bs)]
            } else {
                s.input[i]
            } by {
                lemma_position_split(s.layout, i, ch, bs);
            }
        }
        assert forall|i: int| 0 <= i < s.input.len() implies #[trigger] self@.input[i]
            == s.after_frame(in_frame@).input[i] by {
            lemma_position_split(s.layout, i, ch, bs);
        }
        assert(self@.input =~= s.after_frame(in_frame@).input);
    }

    /// Reads the current frame of the last computed block into the output frame.
    pub fn update_output(&mut self)
        requires
            old(self).wf(),
            old(self)@.offset < old(self)@.blocksize,
        ensures
            final(self).wf(),
            final(self)@ == old(self)@,
            final(self).out_frame() == old(self)@.current_output(),
    {
        let ghost s = self@;
        let ghost ch = s.out_channels as int;
        let ghost bs = s.blocksize as int;
        let mut n: usize = 0;
        while n < self.out_frame.len()
            invariant
                self.wf(),
                self@ == s,
                s.well_formed(),
                ch == s.out_channels,
                bs == s.blocksize,
                s.offset < s.blocksize,
                n <= ch,
                self.out_frame@.len() == ch,
                forall|k: int| 0 <= k < n ==> #[trigger] self.out_frame@[k] == s.current_output()[k],
            decreases ch - n,
        {
            proof {
                lemma_index_inverse(s.layout, n as int, s.offset as int, ch, bs);
                assert(bs * ch <= 65535 * 65535) by (nonlinear_arith)
                    requires
                        0 <= bs <= 65535,
                        0 <= ch,
                        ch <= 65535,
                ;
            }
            let pos = match self.layout {
                BufferLayout::Interleaved => self.frame_offset * self.out_ch_num + n,
                BufferLayout::Planar => n * self.blocksize + self.frame_offset,
            };
            let sample = self.out_buf[pos];
            self.out_frame.set(n, sample);
            n = n + 1;
        }
        assert(self.out_frame@ =~= s.current_output());
    }

    /// The frame handed out last.
    pub closed spec fn out_frame(&self) -> Seq<T> {
        self.out_frame@
    }

    /// Takes in `in_frame` at the current frame and hands out the matching frame of the last
    /// computed block. A frame whose size is not the number of input channels is refused and
    /// leaves the adapter as it was.
    pub fn next_frame(&mut self, in_frame: &[T]) -> (r: Result<&[T], Error>)
        requires
            old(self).wf(),
            in_frame@.len() == old(self)@.in_channels ==> !old(self)@.block_pending(),
        ensures
            final(self).wf(),
            in_frame@.len() != old(self)@.in_channels ==> r == Err::<&[T], Error>(
                Error::WrongInFrameSize,
            ) && final(self)@ == old(self)@,
            in_frame@.len() == old(self)@.in_channels ==> r is Ok && r->Ok_0@
                == old(self)@.current_output() && final(self)@ == old(self)@.after_frame(
                in_frame@,
            ),
            in_frame@.len() == old(self)@.in_channels ==> old(self)@.run(seq![in_frame@]) == (
            final(self)@,
            seq![r->Ok_0@],
            ),
    {
        if in_frame.len() != self.in_ch_num {
            return Err(Error::WrongInFrameSize);
        }
        let ghost s = self@;
        self.update_input(in_frame);
        self.update_output();
        self.frame_offset = self.frame_offset + 1;
        proof {
            let one = seq![in_frame@];
            assert(one.drop_last() =~= Seq::<Seq<T>>::empty());
            assert(Seq::<Seq<T>>::empty().push(s.current_output()) =~= seq![s.current_output()]);
            assert(self@ =~= s.after_frame(in_frame@));
            assert(one.last() == in_frame@);
            assert(s.run(Seq::<Seq<T>>::empty()) == (s, Seq::<Seq<T>>::empty()));
            assert(s.run(one) == (s.after_frame(in_frame@), seq![s.current_output()]));
            assert(self.out_frame@ == s.current_output());
        }
        Ok(self.out_frame.as_slice())
    }
}

} // verus!
