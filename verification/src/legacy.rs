//! Normalizing the keyframes of an animated property as older Lottie files
//! write them (each keyframe with a start value, an optional end value, a
//! start frame and a hold flag, possibly closed by an entry that only holds
//! a frame) into keyframes that each have a start and an end value and a
//! start and an end frame.
//!
//! The values and frames themselves are not read, only moved; so the
//! normalization works on the shape of the entries and names, for each
//! output keyframe, the entry and field each of its values and frames comes
//! from.
use vstd::prelude::*;

verus! {

/// An entry of a keyframe list as a document writes it.
#[derive(Debug, Clone, Copy, PartialEq, Eq, Structural)]
pub enum LegacyEntry {
    /// A keyframe; `has_end_value` tells whether it gives an end value (`e`),
    /// `hold` whether it holds its start value until the next keyframe.
    KeyFrame { has_end_value: bool, hold: bool },
    /// An entry that gives only a frame (`t`); the list ends there.
    TOnly,
}

/// Where a value of a normalized keyframe comes from.
#[derive(Debug, Clone, Copy, PartialEq, Eq, Structural)]
pub enum ValueSource {
    /// The start value of the entry at this index.
    StartOf(usize),
    /// The end value given by the entry at this index.
    EndOf(usize),
}

/// Where the end frame of a normalized keyframe comes from.
#[derive(Debug, Clone, Copy, PartialEq, Eq, Structural)]
pub enum FrameSource {
    /// The start frame of the entry at this index.
    StartOf(usize),
    /// The frame of the frame-only entry at this index.
    TOnly(usize),
    /// Nothing set it: the default frame.
    Unset,
}

/// A normalized keyframe: its start value, start frame and easing are those
/// of entry `entry`. Its end frame is the later of the frame that
/// `end_frame` names and its own start frame.
#[derive(Debug, Clone, Copy, PartialEq, Eq, Structural)]
pub struct KeyFrameLayout {
    pub entry: usize,
    pub end_value: ValueSource,
    pub end_frame: FrameSource,
}

/// The index of the first frame-only entry at or after `k`, or the length.
pub open spec fn first_t_only(e: Seq<LegacyEntry>, k: int) -> int
    decreases e.len() - k,
{
    if k < 0 || k >= e.len() {
        e.len() as int
    } else if e[k] is TOnly {
        k
    } else {
        first_t_only(e, k + 1)
    }
}

/// The number of keyframes before the list ends.
pub open spec fn keyed_count(e: Seq<LegacyEntry>) -> int {
    first_t_only(e, 0)
}

/// The end value that a keyframe gives itself: its start value where it
/// holds, else its end value where it gives one.
pub open spec fn own_end_value(e: Seq<LegacyEntry>, i: int) -> Option<ValueSource> {
    match e[i] {
        LegacyEntry::KeyFrame { has_end_value, hold } => if hold {
            Some(ValueSource::StartOf(i as usize))
        } else if has_end_value {
            Some(ValueSource::EndOf(i as usize))
        } else {
            None
        },
        LegacyEntry::TOnly => None,
    }
}

/// The end value of keyframe `i` of `m`: its own, else the start value of
/// the next keyframe, else (for the last) its own start value.
pub open spec fn end_value_of(e: Seq<LegacyEntry>, i: int, m: int) -> ValueSource {
    match own_end_value(e, i) {
        Some(v) => v,
        None => if i + 1 < m {
            ValueSource::StartOf((i + 1) as usize)
        } else {
            ValueSource::StartOf(i as usize)
        },
    }
}

/// The end frame of keyframe `i` of `m`: the start frame of the next
/// keyframe; for the last, the frame of the entry that ends the list, if any.
pub open spec fn end_frame_of(e: Seq<LegacyEntry>, i: int, m: int) -> FrameSource {
    if i + 1 < m {
        FrameSource::StartOf((i + 1) as usize)
    } else if m < e.len() {
        FrameSource::TOnly(m as usize)
    } else {
        FrameSource::Unset
    }
}

/// The number of normalized keyframes: all keyframes before the list ends,
/// except that where a frame-only entry ends the list, a last keyframe that
/// gives itself no end value is dropped.
pub open spec fn layout_len(e: Seq<LegacyEntry>) -> int {
    let m = keyed_count(e);
    if m < e.len() && m > 0 && own_end_value(e, m - 1) is None {
        m - 1
    } else {
        m
    }
}

/// The normalized keyframes of an entry list.
pub open spec fn keyframe_layout(e: Seq<LegacyEntry>) -> Seq<KeyFrameLayout> {
    let m = keyed_count(e);
    Seq::new(
        layout_len(e) as nat,
        |i: int|
            KeyFrameLayout {
                entry: i as usize,
                end_value: end_value_of(e, i, m),
                end_frame: end_frame_of(e, i, m),
            },
    )
}

/// Normalized keyframes come from the entries in order, one per entry from
/// the first on, and each one ends at the frame where the next one starts,
/// so the keyframes leave no gap between them.
pub proof fn lemma_layout_contiguous(e: Seq<LegacyEntry>)
    requires
        e.len() <= usize::MAX,
    ensures
        ({
            let l = keyframe_layout(e);
            &&& forall|i: int| 0 <= i < l.len() ==> (#[trigger] l[i]).entry == i
            &&& forall|i: int|
                0 <= i && i + 1 < l.len() ==> (#[trigger] l[i]).end_frame == FrameSource::StartOf(
                    (i + 1) as usize,
                )
        }),
{
    lemma_first_t_only_from(e, 0);
}

/// Every value and frame a normalized keyframe takes comes from a keyframe
/// entry before the end of the list, or from the frame-only entry that ends
/// it.
pub proof fn lemma_layout_sources_in_range(e: Seq<LegacyEntry>)
    requires
        e.len() <= usize::MAX,
    ensures
        ({
            let l = keyframe_layout(e);
            let m = keyed_count(e);
            forall|i: int|
                0 <= i < l.len() ==> {
                    &&& (#[trigger] l[i]).entry < m
                    &&& match l[i].end_value {
                        ValueSource::StartOf(j) => j < m,
                        ValueSource::EndOf(j) => j < m,
                    }
                    &&& match l[i].end_frame {
                        FrameSource::StartOf(j) => j < m,
                        FrameSource::TOnly(j) => j == m && m < e.len() && e[m] is TOnly,
                        FrameSource::Unset => m == e.len(),
                    }
                }
        }),
{
    lemma_first_t_only_from(e, 0);
}

/// The normalized keyframes, entry by entry: keyframe `i` comes from entry
/// `i`, which is a keyframe entry. Its end value is its own start value
/// where it holds, else its own end value where it gives one, else the start
/// value of the next entry (a keyframe), or its own start value where it is
/// the last entry. Its end frame is the next entry's start frame where that
/// is a keyframe, the frame of the next entry where that is frame-only, and
/// unset where it is the last entry. The list ends at the first frame-only
/// entry, one keyframe earlier where the keyframe before it gives itself no
/// end value.
pub proof fn lemma_layout_by_entries(e: Seq<LegacyEntry>)
    requires
        e.len() <= usize::MAX,
    ensures
        ({
            let l = keyframe_layout(e);
            &&& l.len() <= e.len()
            &&& forall|i: int|
                0 <= i < l.len() ==> {
                    &&& (#[trigger] l[i]).entry == i
                    &&& e[i] matches LegacyEntry::KeyFrame { has_end_value, hold } && l[i].end_value
                        == if hold {
                        ValueSource::StartOf(i as usize)
                    } else if has_end_value {
                        ValueSource::EndOf(i as usize)
                    } else if i + 1 < e.len() && e[i + 1] is KeyFrame {
                        ValueSource::StartOf((i + 1) as usize)
                    } else {
                        ValueSource::StartOf(i as usize)
                    }
                    &&& l[i].end_frame == if i + 1 < e.len() && e[i + 1] is KeyFrame {
                        FrameSource::StartOf((i + 1) as usize)
                    } else if i + 1 < e.len() {
                        FrameSource::TOnly((i + 1) as usize)
                    } else {
                        FrameSource::Unset
                    }
                }
            &&& l.len() < e.len() ==> (e[l.len() as int] is TOnly || (e[l.len() as int]
                == LegacyEntry::KeyFrame { has_end_value: false, hold: false } && l.len() + 1
                < e.len() && e[l.len() + 1int] is TOnly))
            &&& (0 < l.len() < e.len() && e[l.len() as int] is TOnly) ==> (e[l.len() - 1] matches LegacyEntry::KeyFrame {
                has_end_value,
                hold,
            } && (has_end_value || hold))
        }),
{
    lemma_first_t_only_from(e, 0);
    let m = keyed_count(e);
    let l = keyframe_layout(e);
    assert forall|i: int| 0 <= i < l.len() implies {
        &&& (#[trigger] l[i]).entry == i
        &&& e[i] matches LegacyEntry::KeyFrame { has_end_value, hold } && l[i].end_value == if hold {
            ValueSource::StartOf(i as usize)
        } else if has_end_value {
            ValueSource::EndOf(i as usize)
        } else if i + 1 < e.len() && e[i + 1] is KeyFrame {
            ValueSource::StartOf((i + 1) as usize)
        } else {
            ValueSource::StartOf(i as usize)
        }
        &&& l[i].end_frame == if i + 1 < e.len() && e[i + 1] is KeyFrame {
            FrameSource::StartOf((i + 1) as usize)
        } else if i + 1 < e.len() {
            FrameSource::TOnly((i + 1) as usize)
        } else {
            FrameSource::Unset
        }
    } by {
        assert(i < m);
        assert(!(e[i] is TOnly));
        if i + 1 < m {
            assert(!(e[i + 1] is TOnly));
        } else if i + 1 < e.len() {
            assert(i + 1 == m);
            assert(e[i + 1] is TOnly);
        }
    }
}

/// A keyframe on its way through the normalization.
#[derive(Clone, Copy)]
struct Pending {
    entry: usize,
    end_value: Option<ValueSource>,
    end_frame: FrameSource,
}

proof fn lemma_first_t_only(e: Seq<LegacyEntry>, k: int)
    requires
        0 <= k <= e.len(),
        forall|j: int| 0 <= j < k ==> !(#[trigger] e[j] is TOnly),
    ensures
        k <= first_t_only(e, k) <= e.len(),
        first_t_only(e, k) == first_t_only(e, 0),
        forall|j: int| 0 <= j < first_t_only(e, 0) ==> !(#[trigger] e[j] is TOnly),
        first_t_only(e, 0) < e.len() ==> e[first_t_only(e, 0)] is TOnly,
    decreases k,
{
    lemma_first_t_only_from(e, k);
    if k > 0 {
        lemma_first_t_only(e, k - 1);
    }
}

proof fn lemma_first_t_only_from(e: Seq<LegacyEntry>, k: int)
    requires
        0 <= k <= e.len(),
    ensures
        k <= first_t_only(e, k) <= e.len(),
        forall|j: int| k <= j < first_t_only(e, k) ==> !(#[trigger] e[j] is TOnly),
        first_t_only(e, k) < e.len() ==> e[first_t_only(e, k)] is TOnly,
    decreases e.len() - k,
{
    if k < e.len() && !(e[k] is TOnly) {
        lemma_first_t_only_from(e, k + 1);
    }
}

/// Normalizes the keyframe entries of an animated property: each keyframe
/// before the first frame-only entry becomes one keyframe whose end frame is
/// the next keyframe's start frame (or the frame of the closing entry), and
/// whose end value is its own (start value where it holds), else the next
/// keyframe's start value.
pub fn legacy_keyframe_layout(entries: &Vec<LegacyEntry>) -> (r: Vec<KeyFrameLayout>)
    ensures
        r@ == keyframe_layout(entries@),
{
    let ghost e = entries@;
    let mut result: Vec<Pending> = Vec::new();
    let mut has_t_only = false;
    let mut k: usize = 0;
    proof {
        lemma_first_t_only_from(e, 0);
    }
    while k < entries.len()
        invariant_except_break
            !has_t_only,
        invariant
            e == entries@,
            k <= entries.len(),
            has_t_only ==> k < entries.len() && e[k as int] is TOnly,
            forall|j: int| 0 <= j < k ==> !(#[trigger] e[j] is TOnly),
            result.len() == k,
            forall|i: int|
                0 <= i < k ==> (#[trigger] result@[i]).entry == i && result@[i].end_value
                    == own_end_value(e, i) && result@[i].end_frame == if i + 1 < k {
                    FrameSource::StartOf((i + 1) as usize)
                } else if has_t_only {
                    FrameSource::TOnly(k as usize)
                } else {
                    FrameSource::Unset
                },
        ensures
            has_t_only ==> k < entries.len() && e[k as int] is TOnly,
            !has_t_only ==> k == entries.len(),
        decreases entries.len() - k,
    {
        match entries[k] {
            LegacyEntry::KeyFrame { has_end_value, hold } => {
                let n = result.len();
                if n > 0 {
                    let mut prev = result[n - 1];
                    prev.end_frame = FrameSource::StartOf(k);
                    result.set(n - 1, prev);
                }
                let end_value = if hold {
                    Some(ValueSource::StartOf(k))
                } else if has_end_value {
                    Some(ValueSource::EndOf(k))
                } else {
                    None
                };
                result.push(Pending { entry: k, end_value, end_frame: FrameSource::Unset });
                k = k + 1;
            },
            LegacyEntry::TOnly => {
                let n = result.len();
                if n > 0 {
                    let mut prev = result[n - 1];
                    prev.end_frame = FrameSource::TOnly(k);
                    result.set(n - 1, prev);
                }
                has_t_only = true;
                break ;
            },
        }
    }
    let m = k;
    proof {
        lemma_first_t_only(e, k as int);
        assert(m == keyed_count(e));
    }
    // Keyframes without an end value end where the next one starts.
    if result.len() > 1 {
        let mut i: usize = 0;
        while i < result.len() - 1
            invariant
                m == result.len(),
                m > 1,
                i <= m - 1,
                forall|j: int|
                    0 <= j < m ==> (#[trigger] result@[j]).entry == j && result@[j].end_frame
                        == end_frame_of(e, j, m as int),
                forall|j: int|
                    0 <= j < i ==> (#[trigger] result@[j]).end_value == Some(
                        end_value_of(e, j, m as int),
                    ),
                forall|j: int|
                    i <= j < m ==> (#[trigger] result@[j]).end_value == own_end_value(e, j),
            decreases m - 1 - i,
        {
            if result[i].end_value.is_none() {
                let mut cur = result[i];
                cur.end_value = Some(ValueSource::StartOf(i + 1));
                result.set(i, cur);
            }
            i = i + 1;
        }
    }
    // A last keyframe with no end value is dropped when a frame-only entry
    // closes the list.
    let n = result.len();
    if has_t_only && n > 0 && result[n - 1].end_value.is_none() {
        result.pop();
    }
    let ghost pending = result@;
    let mut out: Vec<KeyFrameLayout> = Vec::new();
    let mut i: usize = 0;
    while i < result.len()
        invariant
            result@ == pending,
            i <= result.len(),
            out.len() == i,
            forall|j: int|
                0 <= j < i ==> #[trigger] out@[j] == (KeyFrameLayout {
                    entry: pending[j].entry,
                    end_value: match pending[j].end_value {
                        Some(v) => v,
                        None => ValueSource::StartOf(pending[j].entry),
                    },
                    end_frame: pending[j].end_frame,
                }),
        decreases result.len() - i,
    {
        let p = result[i];
        let end_value = match p.end_value {
            Some(v) => v,
            None => ValueSource::StartOf(p.entry),
        };
        out.push(KeyFrameLayout { entry: p.entry, end_value, end_frame: p.end_frame });
        i = i + 1;
    }
    assert(out@ =~= keyframe_layout(e));
    out
}

} // verus!
