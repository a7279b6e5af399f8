use miller_engine::audioloop::{AudioLoop, AudioLoopI16, BufferLayout, Error};

fn engine(input: &[i16], layout: BufferLayout, blocksize: usize) -> Vec<i16> {
    // doubles channel 0 and triples channel 1
    input
        .iter()
        .enumerate()
        .map(|(n, v)| {
            let ch = match layout {
                BufferLayout::Interleaved => n % 2,
                BufferLayout::Planar => n / blocksize,
            };
            v * [2_i16, 3][ch]
        })
        .collect()
}

fn feed(lp: &mut AudioLoopI16, layout: BufferLayout, frames: &[[i16; 2]]) -> Vec<Vec<i16>> {
    let mut out = Vec::new();
    for f in frames {
        if lp.block_pending() {
            let block = engine(lp.input_block(), layout, lp.blocksize());
            lp.complete_block(&block);
        }
        out.push(lp.next_frame(f).unwrap().to_vec());
    }
    out
}

#[test]
fn first_block_is_silent_then_shifted_by_one_block() {
    for layout in [BufferLayout::Interleaved, BufferLayout::Planar] {
        let mut lp = AudioLoopI16::new(layout, 0);
        lp.init_buffers(3, 2, 2);
        let frames: Vec<[i16; 2]> = (0..9).map(|k| [k as i16, 100 + k as i16]).collect();
        let out = feed(&mut lp, layout, &frames);
        assert_eq!(out[0], vec![0, 0]);
        assert_eq!(out[1], vec![0, 0]);
        assert_eq!(out[2], vec![0, 0]);
        assert_eq!(out[3], vec![0, 300]);
        assert_eq!(out[4], vec![2, 303]);
        assert_eq!(out[5], vec![4, 306]);
        assert_eq!(out[6], vec![6, 309]);
        assert_eq!(out[8], vec![10, 315]);
    }
}

#[test]
fn input_block_layouts() {
    let mut lp = AudioLoop::new(BufferLayout::Interleaved, 0i16);
    lp.init_buffers(2, 2, 1);
    lp.next_frame(&[1, 2]).unwrap();
    lp.next_frame(&[3, 4]).unwrap();
    assert!(lp.block_pending());
    assert_eq!(lp.input_block(), &[1, 2, 3, 4]);

    let mut lp = AudioLoop::new(BufferLayout::Planar, 0i16);
    lp.init_buffers(2, 2, 1);
    lp.next_frame(&[1, 2]).unwrap();
    lp.next_frame(&[3, 4]).unwrap();
    assert_eq!(lp.input_block(), &[1, 3, 2, 4]);
}

#[test]
fn wrong_frame_size_leaves_state_unchanged() {
    let mut lp = AudioLoopI16::new(BufferLayout::Interleaved, 0);
    lp.init_buffers(2, 2, 2);
    lp.next_frame(&[1, 2]).unwrap();
    assert_eq!(lp.next_frame(&[1, 2, 3]), Err(Error::WrongInFrameSize));
    assert_eq!(lp.next_frame(&[]), Err(Error::WrongInFrameSize));
    assert!(!lp.block_pending());
    lp.next_frame(&[3, 4]).unwrap();
    assert!(lp.block_pending());
    assert_eq!(lp.input_block(), &[1, 2, 3, 4]);
    assert_eq!(
        Error::WrongInFrameSize.message(),
        "Wrong input frame size. The size should be equal to the number of input channels."
    );
}

#[test]
fn reinit_drops_partial_block() {
    let mut lp = AudioLoopI16::new(BufferLayout::Interleaved, 7);
    lp.init_buffers(2, 1, 1);
    lp.next_frame(&[5]).unwrap();
    lp.init_buffers(3, 2, 1);
    assert_eq!(lp.blocksize(), 3);
    assert_eq!(lp.in_ch_num(), 2);
    assert_eq!(lp.out_ch_num(), 1);
    assert!(!lp.block_pending());
    assert_eq!(lp.input_block(), &[7, 7, 7, 7, 7, 7]);
    assert_eq!(lp.next_frame(&[1, 1]).unwrap(), &[7]);
}

#[test]
fn f32_samples() {
    let mut lp = AudioLoop::new(BufferLayout::Planar, 0.0f32);
    lp.init_buffers(1, 1, 1);
    assert_eq!(lp.next_frame(&[0.5]).unwrap(), &[0.0]);
    assert!(lp.block_pending());
    let block: Vec<f32> = lp.input_block().iter().map(|v| v * 2.0).collect();
    lp.complete_block(&block);
    assert_eq!(lp.next_frame(&[0.25]).unwrap(), &[1.0]);
}

#[test]
fn wrong_frame_size_when_block_pending() {
    let mut lp = AudioLoopI16::new(BufferLayout::Interleaved, 0);
    lp.init_buffers(1, 2, 2);
    lp.next_frame(&[5, 6]).unwrap();
    assert!(lp.block_pending());
    assert_eq!(lp.next_frame(&[5]), Err(Error::WrongInFrameSize));
    assert!(lp.block_pending());
    assert_eq!(lp.input_block(), &[5, 6]);
}
