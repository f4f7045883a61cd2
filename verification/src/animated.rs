//! Animated properties whose keyframes start at whole frames, and the value
//! such a property holds at a frame.
use vstd::prelude::*;

verus! {

/// A keyframe: a value and the frame it starts at, if the document gives one.
#[derive(Debug)]
pub struct KeyFrame<T> {
    pub value: T,
    pub start_frame: Option<u32>,
}

/// A property: either constant (its first keyframe) or animated over its
/// keyframes.
#[derive(Debug)]
pub struct Animated<T> {
    pub animated: bool,
    pub keyframes: Vec<KeyFrame<T>>,
}

impl<T> KeyFrame<T> {
    /// A keyframe that holds `value` from no particular frame.
    pub fn from_value(value: T) -> (k: KeyFrame<T>)
        ensures
            k.value == value,
            k.start_frame is None,
    {
        KeyFrame { value, start_frame: None }
    }

    /// The same keyframe (the same start frame) holding another value.
    pub fn alter_value<U>(&self, value: U) -> (k: KeyFrame<U>)
        ensures
            k.value == value,
            k.start_frame == self.start_frame,
    {
        KeyFrame { value, start_frame: self.start_frame }
    }
}

/// A missing start frame counts as frame 0.
pub open spec fn start_or_zero(s: Option<u32>) -> int {
    match s {
        Some(f) => f as int,
        None => 0,
    }
}

/// The frame clamped between the start frames of the first and the last
/// keyframe (the last one wins where they cross).
pub open spec fn clamp_frame<T>(kf: Seq<KeyFrame<T>>, frame: u32) -> int {
    let lo = start_or_zero(kf[0].start_frame);
    let hi = start_or_zero(kf[kf.len() - 1].start_frame);
    let f = if lo >= frame {
        lo
    } else {
        frame as int
    };
    if hi <= f {
        hi
    } else {
        f
    }
}

/// The first keyframe `i` (from `i0` on) whose window, from its start frame up
/// to the next keyframe's start frame, holds frame `f`.
pub open spec fn window_search<T>(kf: Seq<KeyFrame<T>>, f: int, i: int) -> Option<int>
    decreases kf.len() - i,
{
    if i < 0 || i + 1 >= kf.len() {
        None
    } else if start_or_zero(kf[i].start_frame) <= f && f < start_or_zero(kf[i + 1].start_frame) {
        Some(i)
    } else {
        window_search(kf, f, i + 1)
    }
}

/// The search for the window of frame `f` reads only start frames that the
/// document gives.
pub open spec fn window_search_defined<T>(kf: Seq<KeyFrame<T>>, f: int, i: int) -> bool
    decreases kf.len() - i,
{
    if i < 0 || i + 1 >= kf.len() {
        true
    } else if kf[i].start_frame is None {
        false
    } else if start_or_zero(kf[i].start_frame) <= f && kf[i + 1].start_frame is None {
        false
    } else if start_or_zero(kf[i].start_frame) <= f && f < start_or_zero(
        kf[i + 1].start_frame,
    ) {
        true
    } else {
        window_search_defined(kf, f, i + 1)
    }
}

impl<T> Animated<T> {
    /// The index of the keyframe whose value the property holds at `frame`:
    /// the first keyframe for a constant property; for an animated one, the
    /// keyframe whose window holds the clamped frame, else the last keyframe.
    pub open spec fn value_index(&self, frame: u32) -> int {
        let kf = self.keyframes@;
        if !self.animated {
            0
        } else {
            match window_search(kf, clamp_frame(kf, frame), 0) {
                Some(i) => i,
                None => kf.len() - 1,
            }
        }
    }

    /// The value at `frame` can be read: there is a keyframe, and an animated
    /// property gives the start frames that the search reads.
    pub open spec fn value_defined(&self, frame: u32) -> bool {
        let kf = self.keyframes@;
        &&& kf.len() > 0
        &&& self.animated ==> window_search_defined(kf, clamp_frame(kf, frame), 0)
    }
}

/// Start frames given for every keyframe and strictly increasing.
pub open spec fn strictly_ordered_starts<T>(kf: Seq<KeyFrame<T>>) -> bool {
    &&& forall|i: int| 0 <= i < kf.len() ==> (#[trigger] kf[i].start_frame) is Some
    &&& forall|i: int, j: int|
        0 <= i < j < kf.len() ==> start_or_zero(#[trigger] kf[i].start_frame) < start_or_zero(
            #[trigger] kf[j].start_frame,
        )
}

proof fn lemma_window_search_hits<T>(kf: Seq<KeyFrame<T>>, i: int, j: int)
    requires
        strictly_ordered_starts(kf),
        0 <= j <= i < kf.len(),
    ensures
        window_search(kf, start_or_zero(kf[i].start_frame), j) == if i + 1 < kf.len() {
            Some(i)
        } else {
            None::<int>
        },
        window_search_defined(kf, start_or_zero(kf[i].start_frame), j),
    decreases kf.len() - j,
{
    if j + 1 < kf.len() && j < i {
        lemma_window_search_hits(kf, i, j + 1);
    }
}

proof fn lemma_window_search_within<T>(kf: Seq<KeyFrame<T>>, f: int, i: int, j: int)
    requires
        strictly_ordered_starts(kf),
        0 <= j <= i,
        i + 1 < kf.len(),
        start_or_zero(kf[i].start_frame) <= f < start_or_zero(kf[i + 1].start_frame),
    ensures
        window_search(kf, f, j) == Some(i),
        window_search_defined(kf, f, j),
    decreases i - j,
{
    if j < i {
        assert(start_or_zero(kf[j + 1].start_frame) <= start_or_zero(kf[i].start_frame)) by {
            if j + 1 < i {
                assert(start_or_zero(kf[j + 1].start_frame) < start_or_zero(kf[i].start_frame));
            }
        }
        assert(kf[j].start_frame is Some);
        assert(kf[j + 1].start_frame is Some);
        lemma_window_search_within(kf, f, i, j + 1);
    } else {
        assert(kf[i].start_frame is Some);
        assert(kf[i + 1].start_frame is Some);
    }
}

proof fn lemma_window_search_bounds<T>(kf: Seq<KeyFrame<T>>, f: int, j: int)
    requires
        0 <= j,
    ensures
        window_search(kf, f, j) matches Some(i) ==> j <= i && i + 1 < kf.len(),
    decreases kf.len() - j,
{
    if j + 1 < kf.len() {
        lemma_window_search_bounds(kf, f, j + 1);
    }
}

/// The keyframe whose value a property holds at a frame is one of its
/// keyframes.
pub proof fn lemma_value_index_in_bounds<T>(a: Animated<T>, frame: u32)
    requires
        a.keyframes@.len() > 0,
    ensures
        0 <= a.value_index(frame) < a.keyframes@.len(),
{
    lemma_window_search_bounds(a.keyframes@, clamp_frame(a.keyframes@, frame), 0);
}

/// A property that is not animated holds its first keyframe's value at every
/// frame.
pub proof fn lemma_constant_value<T>(a: Animated<T>, frame: u32)
    requires
        !a.animated,
    ensures
        a.value_index(frame) == 0,
{
}

/// Where the keyframes start at strictly increasing frames, an animated
/// property holds, at any frame from a keyframe's start up to the next
/// keyframe's start, that keyframe's value.
pub proof fn lemma_value_in_window<T>(a: Animated<T>, i: int, frame: u32)
    requires
        a.animated,
        strictly_ordered_starts(a.keyframes@),
        0 <= i,
        i + 1 < a.keyframes@.len(),
        a.keyframes@[i].start_frame->0 <= frame < a.keyframes@[i + 1].start_frame->0,
    ensures
        a.value_defined(frame),
        a.value_index(frame) == i,
{
    let kf = a.keyframes@;
    assert(kf[0].start_frame is Some);
    assert(kf[i].start_frame is Some);
    assert(kf[i + 1].start_frame is Some);
    assert(kf[kf.len() - 1].start_frame is Some);
    if i > 0 {
        assert(start_or_zero(kf[0].start_frame) < start_or_zero(kf[i].start_frame));
    }
    if i + 1 < kf.len() - 1 {
        assert(start_or_zero(kf[i + 1].start_frame) < start_or_zero(kf[kf.len() - 1].start_frame));
    }
    assert(clamp_frame(kf, frame) == frame as int);
    lemma_window_search_within(kf, frame as int, i, 0);
}

/// Where the keyframes start at strictly increasing frames, an animated
/// property holds its last keyframe's value from that keyframe's start on,
/// and its first keyframe's value up to the first keyframe's start.
pub proof fn lemma_value_outside_keyframes<T>(a: Animated<T>, frame: u32)
    requires
        a.animated,
        strictly_ordered_starts(a.keyframes@),
        a.keyframes@.len() > 0,
    ensures
        frame >= a.keyframes@[a.keyframes@.len() - 1].start_frame->0 ==> a.value_defined(frame)
            && a.value_index(frame) == a.keyframes@.len() - 1,
        frame <= a.keyframes@[0].start_frame->0 ==> a.value_defined(frame) && a.value_index(frame)
            == 0,
{
    let kf = a.keyframes@;
    let n = kf.len() - 1;
    assert(kf[0].start_frame is Some);
    assert(kf[n].start_frame is Some);
    if frame >= kf[n].start_frame->0 {
        if n > 0 {
            assert(start_or_zero(kf[0].start_frame) < start_or_zero(kf[n].start_frame));
        }
        assert(clamp_frame(kf, frame) == start_or_zero(kf[n].start_frame));
        lemma_window_search_hits(kf, n, 0);
    }
    if frame <= kf[0].start_frame->0 {
        if n > 0 {
            assert(start_or_zero(kf[0].start_frame) < start_or_zero(kf[n].start_frame));
        }
        assert(clamp_frame(kf, frame) == start_or_zero(kf[0].start_frame));
        lemma_window_search_hits(kf, 0, 0);
    }
}

/// Where the keyframes start at strictly increasing frames, an animated
/// property holds each keyframe's value at that keyframe's start frame.
pub proof fn lemma_value_at_keyframe_start<T>(a: Animated<T>, i: int)
    requires
        a.animated,
        strictly_ordered_starts(a.keyframes@),
        0 <= i < a.keyframes@.len(),
    ensures
        ({
            let frame = a.keyframes@[i].start_frame->0;
            &&& a.value_defined(frame)
            &&& a.value_index(frame) == i
        }),
{
    let kf = a.keyframes@;
    let frame = kf[i].start_frame->0;
    assert(kf[0].start_frame is Some);
    assert(kf[kf.len() - 1].start_frame is Some);
    if i > 0 {
        assert(start_or_zero(kf[0].start_frame) < start_or_zero(kf[i].start_frame));
    }
    if i < kf.len() - 1 {
        assert(start_or_zero(kf[i].start_frame) < start_or_zero(kf[kf.len() - 1].start_frame));
    }
    assert(clamp_frame(kf, frame) == start_or_zero(kf[i].start_frame));
    lemma_window_search_hits(kf, i, 0);
}

impl<T: Clone> Animated<T> {
    /// A copy of the value at `frame`, where it can be read: the value of the
    /// keyframe that `value_index` names; `None` where there is no keyframe or
    /// the search meets a keyframe without a start frame.
    pub fn try_value(&self, frame: u32) -> (r: Option<T>)
        ensures
            r is None <==> !self.value_defined(frame),
            r matches Some(v) ==> cloned(self.keyframes@[self.value_index(frame)].value, v),
    {
        if self.keyframes.len() == 0 {
            return None;
        }
        if !self.animated {
            return Some(self.keyframes[0].value.clone());
        }
        let ghost kf = self.keyframes@;
        let len = self.keyframes.len() - 1;
        let lo = match self.keyframes[0].start_frame {
            Some(f) => f,
            None => 0,
        };
        let hi = match self.keyframes[len].start_frame {
            Some(f) => f,
            None => 0,
        };
        let mut f = if lo >= frame {
            lo
        } else {
            frame
        };
        f = if hi <= f {
            hi
        } else {
            f
        };
        assert(f == clamp_frame(kf, frame));
        let mut i: usize = 0;
        while i < len
            invariant
                kf == self.keyframes@,
                self.animated,
                f == clamp_frame(kf, frame),
                len == kf.len() - 1,
                i <= len,
                window_search(kf, f as int, i as int) == window_search(kf, f as int, 0),
                window_search_defined(kf, f as int, i as int) == window_search_defined(
                    kf,
                    f as int,
                    0,
                ),
            decreases len - i,
        {
            match self.keyframes[i].start_frame {
                None => {
                    return None;
                },
                Some(s0) => {
                    if f >= s0 {
                        match self.keyframes[i + 1].start_frame {
                            None => {
                                return None;
                            },
                            Some(s1) => {
                                if f < s1 {
                                    return Some(self.keyframes[i].value.clone());
                                }
                            },
                        }
                    }
                },
            }
            i = i + 1;
        }
        Some(self.keyframes[len].value.clone())
    }
}

/// Reading the value of an animated property at a frame.
pub trait AnimatedExt {
    type Target;

    spec fn has_initial_value(&self) -> bool;

    spec fn value_defined_at(&self, frame: u32) -> bool;

    /// The value at the start.
    fn initial_value(&self) -> Self::Target
        requires
            self.has_initial_value(),
    ;

    /// The value at `frame`.
    fn value(&self, frame: u32) -> Self::Target
        requires
            self.value_defined_at(frame),
    ;

    fn is_animated(&self) -> bool;
}

impl<T: Clone> AnimatedExt for Animated<T> {
    type Target = T;

    open spec fn has_initial_value(&self) -> bool {
        self.keyframes@.len() > 0
    }

    open spec fn value_defined_at(&self, frame: u32) -> bool {
        self.value_defined(frame)
    }

    /// A copy of the first keyframe's value.
    fn initial_value(&self) -> (v: T)
        ensures
            cloned(self.keyframes@[0].value, v),
    {
        self.keyframes[0].value.clone()
    }

    /// A copy of the value of the keyframe that `value_index` names.
    fn value(&self, frame: u32) -> (v: T)
        ensures
            cloned(self.keyframes@[self.value_index(frame)].value, v),
    {
        match self.try_value(frame) {
            Some(v) => v,
            None => self.initial_value(),
        }
    }

    /// Whether the document marks the property as animated.
    fn is_animated(&self) -> (b: bool)
        ensures
            b == self.animated,
    {
        self.animated
    }
}

} // verus!
