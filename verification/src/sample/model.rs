//! Sample clips and the library that holds them.

use vstd::prelude::*;
use crate::midi::pitch::{key_name, key_to_name};

verus! {

/// An audio or video clip that can sound a note.
#[derive(Clone, Debug)]
pub struct SampleClip {
    pub id: usize,
    pub path: String,
    pub name: String,
    /// The key the clip sounds at.
    pub pitch: u8,
    /// Duration in microseconds.
    pub duration_us: u64,
    pub sample_rate: u32,
    pub format: String,
    pub tags: Vec<String>,
}

impl SampleClip {
    /// The name of the clip's pitch, such as "C4".
    pub fn pitch_name(&self) -> (name: String)
        ensures
            name@ == key_name(self.pitch),
    {
        key_to_name(self.pitch)
    }
}

/// The clips of a project, each with an id of its own.
pub struct SampleLibrary {
    pub clips: Vec<SampleClip>,
    /// The id that the next added clip receives.
    pub next_id: usize,
}

/// The first clip of `s` with id `id`.
pub open spec fn clip_with_id(s: Seq<SampleClip>, id: usize) -> Option<SampleClip>
    decreases s.len(),
{
    if s.len() == 0 {
        None
    } else {
        match clip_with_id(s.drop_last(), id) {
            Some(c) => Some(c),
            None => if s.last().id == id { Some(s.last()) } else { None },
        }
    }
}

/// `s` without its clips of id `id`.
pub open spec fn without_id(s: Seq<SampleClip>, id: usize) -> Seq<SampleClip>
    decreases s.len(),
{
    if s.len() == 0 {
        s
    } else if s.last().id == id {
        without_id(s.drop_last(), id)
    } else {
        without_id(s.drop_last(), id).push(s.last())
    }
}

/// The clips of `s` whose pitch lies at most `max` semitones from `pitch`, in order.
pub open spec fn clips_near(s: Seq<SampleClip>, pitch: u8, max: u8) -> Seq<SampleClip>
    decreases s.len(),
{
    if s.len() == 0 {
        s
    } else if pitch_distance(s.last().pitch, pitch) <= max {
        clips_near(s.drop_last(), pitch, max).push(s.last())
    } else {
        clips_near(s.drop_last(), pitch, max)
    }
}

/// How many semitones apart two keys are.
pub open spec fn pitch_distance(a: u8, b: u8) -> int {
    if a >= b { a - b } else { b - a }
}

/// Whether some clip of `s` has id `id`.
pub open spec fn has_id(s: Seq<SampleClip>, id: usize) -> bool {
    exists|i: int| 0 <= i < s.len() && (#[trigger] s[i]).id == id
}

impl SampleLibrary {
    /// Ids are unique and below the next id to hand out.
    pub open spec fn well_formed(&self) -> bool {
        &&& forall|i: int, j: int| 0 <= i < j < self.clips@.len()
            ==> (#[trigger] self.clips@[i]).id != (#[trigger] self.clips@[j]).id
        &&& forall|i: int| 0 <= i < self.clips@.len() ==> (#[trigger] self.clips@[i]).id < self.next_id
    }

    /// An empty library.
    pub fn new() -> (lib: Self)
        ensures
            lib.clips@.len() == 0,
            lib.next_id == 0,
            lib.well_formed(),
    {
        SampleLibrary { clips: Vec::new(), next_id: 0 }
    }

    /// Adds `clip` under the next id, which it returns.
    pub fn add_clip(&mut self, clip: SampleClip) -> (id: usize)
        requires
            old(self).next_id < usize::MAX,
        ensures
            id == old(self).next_id,
            final(self).next_id == id + 1,
            final(self).clips@ == old(self).clips@.push(SampleClip { id, ..clip }),
            old(self).well_formed() ==> final(self).well_formed(),
    {
        let id = self.next_id;
        let mut clip = clip;
        clip.id = id;
        self.clips.push(clip);
        self.next_id = self.next_id + 1;
        id
    }

    /// Removes the clips of id `id`; whether there was one.
    pub fn remove_clip(&mut self, id: usize) -> (removed: bool)
        ensures
            final(self).clips@ == without_id(old(self).clips@, id),
            final(self).next_id == old(self).next_id,
            removed == has_id(old(self).clips@, id),
            old(self).well_formed() ==> final(self).well_formed(),
    {
        let ghost old_clips = self.clips@;
        let mut rest: Vec<SampleClip> = Vec::new();
        std::mem::swap(&mut rest, &mut self.clips);
        let n = rest.len();
        let mut kept: Vec<SampleClip> = Vec::new();
        let mut removed = false;
        while rest.len() > 0
            invariant
                n == old_clips.len(),
                rest@.len() <= n,
                rest@ == old_clips.subrange(n - rest@.len(), n as int),
                kept@ == without_id(old_clips.subrange(0, n - rest@.len()), id),
                removed == has_id(old_clips.subrange(0, n - rest@.len()), id),
                self.next_id == old(self).next_id,
            decreases rest@.len(),
        {
            let ghost i = n - rest@.len();
            let c = rest.remove(0);
            proof {
                let p = old_clips.subrange(0, i + 1);
                assert(p.drop_last() =~= old_clips.subrange(0, i));
                assert(p.last() == old_clips[i]);
                assert(c == old_clips[i]);
                assert(rest@ =~= old_clips.subrange(i + 1, n as int));
                if has_id(p, id) && c.id != id {
                    let k = choose|k: int| 0 <= k < p.len() && (#[trigger] p[k]).id == id;
                    assert(old_clips.subrange(0, i)[k] == p[k]);
                }
                if has_id(old_clips.subrange(0, i), id) {
                    let k = choose|k: int| 0 <= k < i && (#[trigger] old_clips.subrange(0, i)[k]).id == id;
                    assert(p[k] == old_clips.subrange(0, i)[k]);
                }
                if c.id == id {
                    assert(p[i] == c);
                }
            }
            if c.id == id {
                removed = true;
            } else {
                kept.push(c);
            }
        }
        assert(old_clips.subrange(0, n as int) == old_clips);
        proof {
            if old(self).well_formed() {
                lemma_without_id_wf(old_clips, id, self.next_id);
            }
        }
        self.clips = kept;
        removed
    }
}

impl SampleLibrary {
    /// The first clip of id `id`.
    pub fn get_clip(&self, id: usize) -> (res: Option<&SampleClip>)
        ensures
            match res {
                Some(c) => clip_with_id(self.clips@, id) == Some(*c),
                None => clip_with_id(self.clips@, id) is None,
            },
    {
        let mut i: usize = 0;
        while i < self.clips.len()
            invariant
                i <= self.clips@.len(),
                clip_with_id(self.clips@.subrange(0, i as int), id) is None,
            decreases self.clips@.len() - i,
        {
            proof {
                let p = self.clips@.subrange(0, i + 1);
                assert(p.drop_last() =~= self.clips@.subrange(0, i as int));
                assert(p.last() == self.clips@[i as int]);
            }
            if self.clips[i].id == id {
                proof { lemma_clip_with_id_prefix(self.clips@, id, i + 1); }
                return Some(&self.clips[i]);
            }
            i = i + 1;
        }
        assert(self.clips@.subrange(0, i as int) == self.clips@);
        None
    }

    /// The clips whose pitch is `pitch`, in order.
    pub fn find_by_pitch(&self, pitch: u8) -> (res: Vec<&SampleClip>)
        ensures
            res@.map_values(|r: &SampleClip| *r) == clips_near(self.clips@, pitch, 0),
    {
        self.find_similar(pitch, 0)
    }

    /// The clips whose pitch lies at most `max_semitones` from `pitch`, in order.
    pub fn find_similar(&self, pitch: u8, max_semitones: u8) -> (res: Vec<&SampleClip>)
        ensures
            res@.map_values(|r: &SampleClip| *r) == clips_near(self.clips@, pitch, max_semitones),
    {
        let mut res: Vec<&SampleClip> = Vec::new();
        let mut i: usize = 0;
        while i < self.clips.len()
            invariant
                i <= self.clips@.len(),
                res@.map_values(|r: &SampleClip| *r) == clips_near(self.clips@.subrange(0, i as int), pitch, max_semitones),
            decreases self.clips@.len() - i,
        {
            let c = &self.clips[i];
            let ghost before = res@;
            proof {
                let p = self.clips@.subrange(0, i + 1);
                assert(p.drop_last() =~= self.clips@.subrange(0, i as int));
                assert(p.last() == *c);
            }
            let d = if c.pitch >= pitch { c.pitch - pitch } else { pitch - c.pitch };
            if d <= max_semitones {
                res.push(c);
                assert(res@.map_values(|r: &SampleClip| *r) =~= before.map_values(|r: &SampleClip| *r).push(*c));
            }
            i = i + 1;
        }
        assert(self.clips@.subrange(0, i as int) == self.clips@);
        res
    }

    /// The number of clips.
    pub fn len(&self) -> (n: usize)
        ensures
            n == self.clips@.len(),
    {
        self.clips.len()
    }

    /// Whether the library holds no clip.
    pub fn is_empty(&self) -> (b: bool)
        ensures
            b == (self.clips@.len() == 0),
    {
        self.clips.len() == 0
    }
}

/// Looking a clip up in a prefix that holds one finds the same clip as in
/// the whole sequence.
proof fn lemma_clip_with_id_prefix(s: Seq<SampleClip>, id: usize, n: int)
    requires
        0 <= n <= s.len(),
        clip_with_id(s.subrange(0, n), id) is Some,
    ensures
        clip_with_id(s, id) == clip_with_id(s.subrange(0, n), id),
    decreases s.len() - n,
{
    if n < s.len() {
        let q = s.subrange(0, n + 1);
        assert(q.drop_last() =~= s.subrange(0, n));
        lemma_clip_with_id_prefix(s, id, n + 1);
    } else {
        assert(s.subrange(0, n) == s);
    }
}

/// The clip found under an id is one whose id it is.
pub proof fn lemma_clip_with_id_found(s: Seq<SampleClip>, id: usize)
    ensures
        clip_with_id(s, id) matches Some(c) ==> c.id == id && exists|i: int| 0 <= i < s.len() && s[i] == c,
        clip_with_id(s, id) is None <==> !has_id(s, id),
    decreases s.len(),
{
    if s.len() > 0 {
        let d = s.drop_last();
        lemma_clip_with_id_found(d, id);
        if let Some(c) = clip_with_id(d, id) {
            let i = choose|i: int| 0 <= i < d.len() && d[i] == c;
            assert(s[i] == d[i]);
        } else if s.last().id == id {
            assert(s[s.len() - 1] == s.last());
        } else {
            assert forall|i: int| 0 <= i < s.len() implies (#[trigger] s[i]).id != id by {
                if i < d.len() {
                    assert(s[i] == d[i]);
                    assert(!has_id(d, id));
                }
            }
        }
    }
}

/// A clip read back under the id that adding it returned is that clip: in a
/// well-formed library, after `add_clip(c)` returns `id`, `get_clip(id)` finds
/// `c` with id `id`.
pub proof fn law_add_then_get(lib: SampleLibrary, c: SampleClip)
    requires
        lib.well_formed(),
    ensures
        clip_with_id(lib.clips@.push(SampleClip { id: lib.next_id, ..c }), lib.next_id)
            == Some(SampleClip { id: lib.next_id, ..c }),
{
    let s = lib.clips@;
    let x = SampleClip { id: lib.next_id, ..c };
    lemma_clip_with_id_found(s, lib.next_id);
    assert(!has_id(s, lib.next_id));
    assert(s.push(x).drop_last() =~= s);
}

/// After `remove_clip(id)`, no clip has that id: `get_clip(id)` finds none.
pub proof fn law_remove_then_get(s: Seq<SampleClip>, id: usize)
    ensures
        clip_with_id(without_id(s, id), id) is None,
{
    lemma_without_id_members(s, id);
    lemma_clip_with_id_found(without_id(s, id), id);
}

/// Removing one id leaves every other id's clip where lookup finds it:
/// `get_clip(other)` gives the same after `remove_clip(id)`.
pub proof fn law_remove_keeps_others(s: Seq<SampleClip>, id: usize, other: usize)
    requires
        other != id,
    ensures
        clip_with_id(without_id(s, id), other) == clip_with_id(s, other),
    decreases s.len(),
{
    if s.len() > 0 {
        let d = s.drop_last();
        law_remove_keeps_others(d, id, other);
        if s.last().id != id {
            assert(without_id(s, id).drop_last() =~= without_id(d, id));
        }
    }
}

/// Every clip of `without_id(s, id)` is a clip of `s` other than of id `id`.
proof fn lemma_without_id_members(s: Seq<SampleClip>, id: usize)
    ensures
        forall|i: int| 0 <= i < without_id(s, id).len() ==> (#[trigger] without_id(s, id)[i]).id != id
            && exists|j: int| 0 <= j < s.len() && without_id(s, id)[i] == s[j],
    decreases s.len(),
{
    if s.len() > 0 {
        let d = s.drop_last();
        lemma_without_id_members(d, id);
        let w = without_id(s, id);
        let wd = without_id(d, id);
        assert forall|i: int| 0 <= i < w.len() implies (#[trigger] w[i]).id != id
            && exists|j: int| 0 <= j < s.len() && w[i] == s[j] by {
            if i < wd.len() {
                assert(w[i] == wd[i]);
                let j = choose|j: int| 0 <= j < d.len() && wd[i] == d[j];
                assert(d[j] == s[j]);
            } else {
                assert(w[i] == s.last());
                assert(s[s.len() - 1] == s.last());
            }
        }
    }
}

/// Removing clips keeps ids unique and below `bound`.
proof fn lemma_without_id_wf(s: Seq<SampleClip>, id: usize, bound: usize)
    requires
        forall|i: int, j: int| 0 <= i < j < s.len() ==> (#[trigger] s[i]).id != (#[trigger] s[j]).id,
        forall|i: int| 0 <= i < s.len() ==> (#[trigger] s[i]).id < bound,
    ensures
        forall|i: int, j: int| 0 <= i < j < without_id(s, id).len()
            ==> (#[trigger] without_id(s, id)[i]).id != (#[trigger] without_id(s, id)[j]).id,
        forall|i: int| 0 <= i < without_id(s, id).len() ==> (#[trigger] without_id(s, id)[i]).id < bound,
    decreases s.len(),
{
    if s.len() > 0 {
        let d = s.drop_last();
        assert forall|i: int, j: int| 0 <= i < j < d.len() implies (#[trigger] d[i]).id != (#[trigger] d[j]).id by {
            assert(d[i] == s[i] && d[j] == s[j]);
        }
        assert forall|i: int| 0 <= i < d.len() implies (#[trigger] d[i]).id < bound by {
            assert(d[i] == s[i]);
        }
        lemma_without_id_wf(d, id, bound);
        lemma_without_id_members(d, id);
        let w = without_id(s, id);
        let wd = without_id(d, id);
        if s.last().id != id {
            assert forall|i: int, j: int| 0 <= i < j < w.len() implies (#[trigger] w[i]).id != (#[trigger] w[j]).id by {
                if j == w.len() - 1 {
                    assert(w[i] == wd[i]);
                    let k = choose|k: int| 0 <= k < d.len() && wd[i] == d[k];
                    assert(d[k] == s[k]);
                    assert(s[s.len() - 1] == s.last());
                } else {
                    assert(w[i] == wd[i] && w[j] == wd[j]);
                }
            }
            assert forall|i: int| 0 <= i < w.len() implies (#[trigger] w[i]).id < bound by {
                if i < wd.len() {
                    assert(w[i] == wd[i]);
                } else {
                    assert(s[s.len() - 1] == s.last());
                }
            }
        }
    }
}

/// `find_similar(pitch, max)` gives exactly the clips whose pitch differs
/// from `pitch` by at most `max` semitones, whether above or below it, in
/// the order of the library: the library filtered by that test.
pub proof fn law_similar_clips_are_within_reach(s: Seq<SampleClip>, pitch: u8, max: u8)
    ensures
        clips_near(s, pitch, max) == s.filter(|c: SampleClip| c.pitch - pitch <= max && pitch - c.pitch <= max),
        forall|c: SampleClip| #[trigger] clips_near(s, pitch, max).contains(c)
            <==> (s.contains(c) && c.pitch - pitch <= max && pitch - c.pitch <= max),
    decreases s.len(),
{
    let pred = |c: SampleClip| c.pitch - pitch <= max && pitch - c.pitch <= max;
    reveal(Seq::filter);
    if s.len() > 0 {
        law_similar_clips_are_within_reach(s.drop_last(), pitch, max);
    }
    assert(clips_near(s, pitch, max) == s.filter(pred));
    assert forall|c: SampleClip| #[trigger] clips_near(s, pitch, max).contains(c)
        <==> (s.contains(c) && pred(c)) by {
        if s.filter(pred).contains(c) {
            s.lemma_filter_contains_rev(pred, c);
            let i = choose|i: int| 0 <= i < s.filter(pred).len() && s.filter(pred)[i] == c;
            s.lemma_filter_pred(pred, i);
        }
        if s.contains(c) && pred(c) {
            let i = choose|i: int| 0 <= i < s.len() && s[i] == c;
            s.lemma_filter_contains(pred, i);
        }
    }
}

} // verus!
