use vstd::prelude::*;

verus! {

/// The window dimensions that the rendering side reports each frame.
#[derive(Clone, Copy, Debug, PartialEq, Eq, Structural)]
pub struct WindowInfo {
    pub width: usize,
    pub height: usize,
}

/// Records the window size read by the platform layer.
pub fn update_win_dim_info(info: &mut WindowInfo, w: usize, h: usize)
    ensures
        final(info).width == w,
        final(info).height == h,
{
    info.width = w;
    info.height = h;
}

/// Applies `f1`, then `f2` to its result.
pub fn compose<A, B, C, F1: Fn(A) -> B, F2: Fn(B) -> C>(f1: &F1, f2: &F2, a: A) -> (r: C)
    requires
        f1.requires((a,)),
        forall|b: B| f2.requires((b,)),
    ensures
        exists|b: B| f1.ensures((a,), b) && f2.ensures((b,), r),
{
    let b = f1(a);
    f2(b)
}

} // verus!
