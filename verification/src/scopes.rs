//! Lexical scopes of the source front door: a stack of frames, each mapping
//! a name to what it denotes. Lookup goes innermost-out; assignment writes
//! the innermost frame that already holds the name, so a mutation inside a
//! loop or branch frame reaches the declaration.
use vstd::prelude::*;
use crate::text::{chars_of, copy_range, eq};

verus! {

/// What a source name denotes while a function is being extracted.
#[derive(Debug, Clone)]
pub enum Binding {
    Node(u32),
    Int(i64),
    /// a fixed-size array parameter: its element variables are the nodes
    /// `first .. first + len`, created consecutively
    Array(u32, u32),
    /// a dynamic sequence parameter: its index among the term's sequences
    Sequence(u32),
    /// the fold loop variable: valid only as `s[__i]` inside the fold body
    LoopIdx,
    /// a co-accumulator while another accumulator's fold body is read:
    /// reading it refuses
    Foreign,
    /// a non-f64 struct field: refuses on read, naming its type
    NonF64Field(String),
}

impl Binding {
    /// An equal binding.
    pub fn duplicate(&self) -> (r: Binding)
        ensures
            r == *self,
    {
        match self {
            Binding::Node(id) => Binding::Node(*id),
            Binding::Int(k) => Binding::Int(*k),
            Binding::Array(f, n) => Binding::Array(*f, *n),
            Binding::Sequence(k) => Binding::Sequence(*k),
            Binding::LoopIdx => Binding::LoopIdx,
            Binding::Foreign => Binding::Foreign,
            Binding::NonF64Field(t) => Binding::NonF64Field(t.clone()),
        }
    }
}

pub type FrameV = Seq<(Seq<char>, Binding)>;

/// The binding of `k` in one frame.
pub open spec fn frame_get(f: FrameV, k: Seq<char>) -> Option<Binding>
    decreases f.len(),
{
    if f.len() == 0 {
        None
    } else if f[0].0 == k {
        Some(f[0].1)
    } else {
        frame_get(f.drop_first(), k)
    }
}

/// The binding of `k` in the innermost frame that holds it.
pub open spec fn scopes_get(fs: Seq<FrameV>, k: Seq<char>) -> Option<Binding>
    decreases fs.len(),
{
    if fs.len() == 0 {
        None
    } else {
        match frame_get(fs.last(), k) {
            Some(b) => Some(b),
            None => scopes_get(fs.drop_last(), k),
        }
    }
}

/// A frame with `k` bound to `b` in place of its former binding.
pub open spec fn frame_put(f: FrameV, k: Seq<char>, b: Binding) -> FrameV {
    Seq::new(f.len(), |i: int| if f[i].0 == k { (k, b) } else { f[i] })
}

/// The stack after assigning `b` to `k` in the innermost frame holding `k`.
pub open spec fn rebound(fs: Seq<FrameV>, k: Seq<char>, b: Binding) -> Seq<FrameV>
    decreases fs.len(),
{
    if fs.len() == 0 {
        fs
    } else if frame_get(fs.last(), k) is Some {
        fs.drop_last().push(frame_put(fs.last(), k, b))
    } else {
        rebound(fs.drop_last(), k, b).push(fs.last())
    }
}

/// `k` bound to `b` in a frame: its binding replaced, or a new entry.
pub open spec fn frame_declare(f: FrameV, k: Seq<char>, b: Binding) -> FrameV {
    if frame_get(f, k) is Some {
        frame_put(f, k, b)
    } else {
        f.push((k, b))
    }
}

/// `k` bound to `b` in the innermost frame (a `let`).
pub open spec fn declared(fs: Seq<FrameV>, k: Seq<char>, b: Binding) -> Seq<FrameV> {
    fs.update(fs.len() - 1, frame_declare(fs.last(), k, b))
}

/// No name occurs twice in a frame.
pub open spec fn frame_unique(f: FrameV) -> bool {
    forall|i: int, j: int| 0 <= i < j < f.len() ==> f[i].0 != f[j].0
}

pub struct Scopes {
    frames: Vec<Vec<(Vec<char>, Binding)>>,
}

pub open spec fn entry_view(e: (Vec<char>, Binding)) -> (Seq<char>, Binding) {
    (e.0@, e.1)
}

pub open spec fn frame_view(f: Vec<(Vec<char>, Binding)>) -> FrameV {
    f@.map_values(|e: (Vec<char>, Binding)| entry_view(e))
}

impl Scopes {
    pub closed spec fn view(&self) -> Seq<FrameV> {
        self.frames@.map_values(|f: Vec<(Vec<char>, Binding)>| frame_view(f))
    }

    /// Every frame binds each name at most once.
    pub open spec fn wf(&self) -> bool {
        forall|i: int| 0 <= i < self.view().len() ==> frame_unique(#[trigger] self.view()[i])
    }

    /// One empty frame: the function's own scope.
    pub fn new() -> (r: Scopes)
        ensures
            r.wf(),
            r.view() == seq![Seq::<(Seq<char>, Binding)>::empty()],
    {
        let mut frames: Vec<Vec<(Vec<char>, Binding)>> = Vec::new();
        frames.push(Vec::new());
        let r = Scopes { frames };
        assert(frame_view(r.frames@[0]) =~= Seq::<(Seq<char>, Binding)>::empty());
        assert(r.view() =~= seq![Seq::<(Seq<char>, Binding)>::empty()]);
        r
    }

    /// Open an inner frame (a block, a loop body, a branch).
    pub fn push_frame(&mut self)
        requires
            old(self).wf(),
        ensures
            final(self).wf(),
            final(self).view() == old(self).view().push(Seq::empty()),
    {
        self.frames.push(Vec::new());
        assert(frame_view(self.frames@.last()) =~= Seq::<(Seq<char>, Binding)>::empty());
        assert(self.view() =~= old(self).view().push(Seq::empty()));
    }

    /// Close the innermost frame.
    pub fn pop_frame(&mut self)
        requires
            old(self).wf(),
        ensures
            final(self).wf(),
            old(self).view().len() > 0 ==> final(self).view() == old(self).view().drop_last(),
            old(self).view().len() == 0 ==> final(self).view() == old(self).view(),
    {
        if self.frames.len() > 0 {
            let _ = self.frames.pop();
            assert(self.view() =~= old(self).view().drop_last());
        }
    }

    /// Position of `k` in frame `f`, if it is bound there.
    fn frame_find(f: &Vec<(Vec<char>, Binding)>, k: &[char]) -> (r: Option<usize>)
        ensures
            r is None <==> frame_get(frame_view(*f), k@) is None,
            r matches Some(j) ==> j < f@.len() && f@[j as int].0@ == k@ && frame_get(
                frame_view(*f),
                k@,
            ) == Some(f@[j as int].1),
    {
        let ghost fv = frame_view(*f);
        let mut j: usize = 0;
        assert(fv.skip(0) =~= fv);
        while j < f.len()
            invariant
                j <= f@.len(),
                fv == frame_view(*f),
                frame_get(fv, k@) == frame_get(fv.skip(j as int), k@),
            decreases f@.len() - j,
        {
            assert(fv.skip(j as int).drop_first() =~= fv.skip(j + 1));
            if eq(&f[j].0, k) {
                return Some(j);
            }
            j += 1;
        }
        None
    }

    /// Bind `name` in the innermost frame (a `let`, a parameter); a former
    /// binding of it there is replaced.
    pub fn declare(&mut self, name: &str, b: Binding)
        requires
            old(self).wf(),
            old(self).view().len() > 0,
        ensures
            final(self).wf(),
            final(self).view() == declared(old(self).view(), name@, b),
            final(self).view().len() == old(self).view().len(),
            final(self).view().drop_last() == old(self).view().drop_last(),
            frame_get(final(self).view().last(), name@) == Some(b),
            scopes_get(final(self).view(), name@) == Some(b),
            forall|k: Seq<char>|
                k != name@ ==> frame_get(#[trigger] final(self).view().last(), k) == frame_get(
                    old(self).view().last(),
                    k,
                ),
    {
        let k = chars_of(name);
        self.bind(&k, b);
    }

    /// Bind `name` in the innermost frame (a `let`, a parameter); a former
    /// binding of it there is replaced.
    pub fn bind(&mut self, name: &[char], b: Binding)
        requires
            old(self).wf(),
            old(self).view().len() > 0,
        ensures
            final(self).wf(),
            final(self).view() == declared(old(self).view(), name@, b),
            final(self).view().len() == old(self).view().len(),
            final(self).view().drop_last() == old(self).view().drop_last(),
            frame_get(final(self).view().last(), name@) == Some(b),
            scopes_get(final(self).view(), name@) == Some(b),
            forall|k: Seq<char>|
                k != name@ ==> frame_get(#[trigger] final(self).view().last(), k) == frame_get(
                    old(self).view().last(),
                    k,
                ),
    {
        let k = copy_range(name, 0, name.len());
        assert(k@ =~= name@);
        let last = self.frames.len() - 1;
        let mut f = self.frames.remove(last);
        let ghost fv = frame_view(f);
        assert(old(self).view()[last as int] == fv);
        match Self::frame_find(&f, &k) {
            Some(j) => {
                f.set(j, (k, b));
                proof {
                    lemma_unique_at(fv, j as int);
                    lemma_frame_put_get(fv, name@, b);
                    assert(frame_view(f) =~= frame_put(fv, name@, b));
                    lemma_frame_put_unique(fv, name@, b);
                }
            },
            None => {
                f.push((k, b));
                proof {
                    lemma_frame_push_get(fv, name@, b);
                    assert(frame_view(f) =~= fv.push((name@, b)));
                }
            },
        }
        self.frames.push(f);
        proof {
            assert(self.view() =~= declared(old(self).view(), name@, b));
            assert(self.view().drop_last() =~= old(self).view().drop_last());
            assert(self.view().last() == frame_view(f));
            assert forall|i: int| 0 <= i < self.view().len() implies frame_unique(
                #[trigger] self.view()[i],
            ) by {
                if i < self.view().len() - 1 {
                    assert(self.view()[i] == old(self).view()[i]);
                }
            }
        }
    }

    /// An equal, independent stack of frames.
    pub fn duplicate(&self) -> (r: Scopes)
        requires
            self.wf(),
        ensures
            r.wf(),
            r.view() == self.view(),
    {
        let mut frames: Vec<Vec<(Vec<char>, Binding)>> = Vec::new();
        let mut i: usize = 0;
        while i < self.frames.len()
            invariant
                i <= self.frames@.len(),
                frames@.len() == i,
                forall|x: int| 0 <= x < i ==> frame_view(#[trigger] frames@[x]) == frame_view(self.frames@[x]),
            decreases self.frames@.len() - i,
        {
            let src = &self.frames[i];
            let mut f: Vec<(Vec<char>, Binding)> = Vec::new();
            let mut j: usize = 0;
            while j < src.len()
                invariant
                    j <= src@.len(),
                    f@.len() == j,
                    forall|y: int| 0 <= y < j ==> entry_view(#[trigger] f@[y]) == entry_view(src@[y]),
                decreases src@.len() - j,
            {
                let name = copy_range(&src[j].0, 0, src[j].0.len());
                assert(name@ =~= src@[j as int].0@);
                f.push((name, src[j].1.duplicate()));
                j += 1;
            }
            assert(frame_view(f) =~= frame_view(*src));
            frames.push(f);
            i += 1;
        }
        let r = Scopes { frames };
        assert(r.view() =~= self.view());
        r
    }

    /// The number of frames.
    pub fn frame_count(&self) -> (r: usize)
        ensures
            r == self.view().len(),
    {
        self.frames.len()
    }

    /// The number of entries of frame `fi`.
    pub fn frame_len(&self, fi: usize) -> (r: usize)
        requires
            fi < self.view().len(),
        ensures
            r == self.view()[fi as int].len(),
    {
        self.frames[fi].len()
    }

    /// Entry `j` of frame `fi`: a name and its binding.
    pub fn entry(&self, fi: usize, j: usize) -> (r: (&Vec<char>, &Binding))
        requires
            fi < self.view().len(),
            j < self.view()[fi as int].len(),
        ensures
            r.0@ == self.view()[fi as int][j as int].0,
            *r.1 == self.view()[fi as int][j as int].1,
    {
        let e = &self.frames[fi][j];
        (&e.0, &e.1)
    }

    /// The binding of `name` in frame `fi` alone, if any.
    pub fn get_in_frame(&self, fi: usize, name: &[char]) -> (r: Option<&Binding>)
        ensures
            fi < self.view().len() ==> (r is None <==> frame_get(self.view()[fi as int], name@) is None),
            fi < self.view().len() ==> (r matches Some(b) ==> frame_get(self.view()[fi as int], name@) == Some(*b)),
            fi >= self.view().len() ==> r is None,
    {
        if fi >= self.frames.len() {
            return None;
        }
        match Self::frame_find(&self.frames[fi], name) {
            Some(j) => Some(&self.frames[fi][j].1),
            None => None,
        }
    }

    /// Replace the binding of entry `j` of frame `fi`, keeping its name.
    pub fn set_binding(&mut self, fi: usize, j: usize, b: Binding)
        requires
            old(self).wf(),
            fi < old(self).view().len(),
            j < old(self).view()[fi as int].len(),
        ensures
            final(self).wf(),
            final(self).view() == old(self).view().update(
                fi as int,
                old(self).view()[fi as int].update(j as int, (old(self).view()[fi as int][j as int].0, b)),
            ),
    {
        let ghost v = old(self).view();
        let mut f = self.frames.remove(fi);
        let name = copy_range(&f[j].0, 0, f[j].0.len());
        assert(name@ =~= v[fi as int][j as int].0);
        f.set(j, (name, b));
        self.frames.insert(fi, f);
        proof {
            assert(frame_view(f) =~= v[fi as int].update(j as int, (v[fi as int][j as int].0, b)));
            assert(self.view() =~= v.update(fi as int, v[fi as int].update(j as int, (v[fi as int][j as int].0, b))));
            assert forall|x: int| 0 <= x < self.view().len() implies frame_unique(#[trigger] self.view()[x]) by {
                assert(frame_unique(v[x]));
                if x == fi {
                    let g = self.view()[x];
                    assert forall|p: int, q: int| 0 <= p < q < g.len() implies g[p].0 != g[q].0 by {
                        assert(g[p].0 == v[x][p].0);
                        assert(g[q].0 == v[x][q].0);
                    }
                }
            }
        }
    }

    /// The binding of `name` in the innermost frame that holds it.
    pub fn find_binding(&self, name: &str) -> (r: Option<&Binding>)
        ensures
            r is None <==> scopes_get(self.view(), name@) is None,
            r matches Some(b) ==> scopes_get(self.view(), name@) == Some(*b),
    {
        let k = chars_of(name);
        self.lookup(&k)
    }

    /// The binding of `name` in the innermost frame that holds it.
    pub fn lookup(&self, name: &[char]) -> (r: Option<&Binding>)
        ensures
            r is None <==> scopes_get(self.view(), name@) is None,
            r matches Some(b) ==> scopes_get(self.view(), name@) == Some(*b),
    {
        let k = copy_range(name, 0, name.len());
        assert(k@ =~= name@);
        let ghost v = self.view();
        let mut i = self.frames.len();
        assert(v.take(i as int) =~= v);
        while i > 0
            invariant
                i <= self.frames@.len(),
                v == self.view(),
                k@ == name@,
                scopes_get(v, k@) == scopes_get(v.take(i as int), k@),
            decreases i,
        {
            let ghost t = v.take(i as int);
            assert(t.drop_last() =~= v.take(i - 1));
            assert(t.last() == frame_view(self.frames@[i - 1]));
            match Self::frame_find(&self.frames[i - 1], &k) {
                Some(j) => {
                    assert(scopes_get(t, k@) == frame_get(t.last(), k@));
                    return Some(&self.frames[i - 1][j].1);
                },
                None => {},
            }
            i -= 1;
        }
        None
    }

    /// Assign `b` to `name` in the innermost frame that already holds it;
    /// `false`, and nothing changed, when no frame does.
    pub fn rebind(&mut self, name: &str, b: Binding) -> (r: bool)
        requires
            old(self).wf(),
        ensures
            final(self).wf(),
            r == (scopes_get(old(self).view(), name@) is Some),
            r ==> final(self).view() == rebound(old(self).view(), name@, b),
            r ==> scopes_get(final(self).view(), name@) == Some(b),
            !r ==> final(self).view() == old(self).view(),
    {
        let k = chars_of(name);
        self.assign(&k, b)
    }

    /// Assign `b` to `name` in the innermost frame that already holds it;
    /// `false`, and nothing changed, when no frame does.
    pub fn assign(&mut self, name: &[char], b: Binding) -> (r: bool)
        requires
            old(self).wf(),
        ensures
            final(self).wf(),
            r == (scopes_get(old(self).view(), name@) is Some),
            r ==> final(self).view() == rebound(old(self).view(), name@, b),
            r ==> scopes_get(final(self).view(), name@) == Some(b),
            !r ==> final(self).view() == old(self).view(),
    {
        let k = copy_range(name, 0, name.len());
        assert(k@ =~= name@);
        let ghost v = self.view();
        let mut i = self.frames.len();
        assert(v.take(i as int) =~= v);
        while i > 0
            invariant
                i <= self.frames@.len(),
                v == self.view(),
                v == old(self).view(),
                k@ == name@,
                self.wf(),
                scopes_get(v, k@) == scopes_get(v.take(i as int), k@),
                rebound(v, k@, b) == rebound(v.take(i as int), k@, b) + v.skip(i as int),
            decreases i,
        {
            let ghost t = v.take(i as int);
            assert(t.drop_last() =~= v.take(i - 1));
            assert(t.last() == frame_view(self.frames@[i - 1]));
            match Self::frame_find(&self.frames[i - 1], &k) {
                Some(j) => {
                    let ghost fv = t.last();
                    let mut f = self.frames.remove(i - 1);
                    f.set(j, (k, b));
                    self.frames.insert(i - 1, f);
                    proof {
                        assert(frame_unique(fv));
                        lemma_unique_at(fv, j as int);
                        assert(frame_view(f) =~= frame_put(fv, k@, b));
                        lemma_frame_put_unique(fv, k@, b);
                        assert(self.view() =~= v.take(i - 1).push(frame_put(fv, k@, b)) + v.skip(
                            i as int,
                        ));
                        assert forall|x: int| 0 <= x < self.view().len() implies frame_unique(
                            #[trigger] self.view()[x],
                        ) by {
                            if x != i - 1 {
                                assert(self.view()[x] == v[x]);
                            }
                        }
                    }
                    proof {
                        lemma_rebind_then_find(v, k@, b, k@);
                    }
                    return true;
                },
                None => {},
            }
            proof {
                assert(v.take(i - 1).push(t.last()) =~= t);
                assert(rebound(v.take(i - 1), k@, b).push(t.last()) + v.skip(i as int) =~= rebound(
                    v.take(i - 1),
                    k@,
                    b,
                ) + v.skip(i - 1));
            }
            i -= 1;
        }
        proof {
            assert(v.skip(0) =~= v);
            assert(v.take(0) =~= Seq::<FrameV>::empty());
            assert(rebound(v.take(0), k@, b) + v.skip(0) =~= v);
        }
        false
    }
}

/// Assignment is what lookup sees: once `k` is rebound to `b` (in the
/// innermost frame that held it), looking `k` up gives `b`, and every other
/// name keeps the binding it had.
pub proof fn lemma_rebind_then_find(fs: Seq<FrameV>, k: Seq<char>, b: Binding, k2: Seq<char>)
    requires
        scopes_get(fs, k) is Some,
    ensures
        scopes_get(rebound(fs, k, b), k) == Some(b),
        k2 != k ==> scopes_get(rebound(fs, k, b), k2) == scopes_get(fs, k2),
    decreases fs.len(),
{
    let g = rebound(fs, k, b);
    if frame_get(fs.last(), k) is Some {
        lemma_frame_put_get(fs.last(), k, b);
        assert(g.drop_last() =~= fs.drop_last());
        if k2 != k {
            assert(frame_get(frame_put(fs.last(), k, b), k2) == frame_get(fs.last(), k2));
        }
    } else {
        lemma_rebind_then_find(fs.drop_last(), k, b, k2);
        assert(g.drop_last() =~= rebound(fs.drop_last(), k, b));
    }
}

/// In a frame without repeated names, entry `j` is the only one with its name.
proof fn lemma_unique_at(f: FrameV, j: int)
    requires
        frame_unique(f),
        0 <= j < f.len(),
    ensures
        forall|i: int| 0 <= i < f.len() && i != j ==> (#[trigger] f[i]).0 != f[j].0,
{
    assert forall|i: int| 0 <= i < f.len() && i != j implies (#[trigger] f[i]).0 != f[j].0 by {
        if i < j {
            assert(f[i].0 != f[j].0);
        } else {
            assert(f[j].0 != f[i].0);
        }
    }
}

proof fn lemma_frame_put_get(f: FrameV, k: Seq<char>, b: Binding)
    requires
        frame_get(f, k) is Some,
    ensures
        frame_get(frame_put(f, k, b), k) == Some(b),
        forall|k2: Seq<char>| k2 != k ==> #[trigger] frame_get(frame_put(f, k, b), k2) == frame_get(f, k2),
    decreases f.len(),
{
    let g = frame_put(f, k, b);
    assert(g.drop_first() =~= frame_put(f.drop_first(), k, b));
    if f[0].0 != k {
        lemma_frame_put_get(f.drop_first(), k, b);
    } else {
        assert forall|k2: Seq<char>| k2 != k implies #[trigger] frame_get(g, k2) == frame_get(f, k2) by {
            lemma_frame_put_other(f.drop_first(), k, b, k2);
        }
    }
    assert forall|k2: Seq<char>| k2 != k implies #[trigger] frame_get(g, k2) == frame_get(f, k2) by {
        lemma_frame_put_other(f, k, b, k2);
    }
}

proof fn lemma_frame_put_other(f: FrameV, k: Seq<char>, b: Binding, k2: Seq<char>)
    requires
        k2 != k,
    ensures
        frame_get(frame_put(f, k, b), k2) == frame_get(f, k2),
    decreases f.len(),
{
    if f.len() > 0 {
        assert(frame_put(f, k, b).drop_first() =~= frame_put(f.drop_first(), k, b));
        lemma_frame_put_other(f.drop_first(), k, b, k2);
    }
}

proof fn lemma_frame_put_unique(f: FrameV, k: Seq<char>, b: Binding)
    requires
        frame_unique(f),
    ensures
        frame_unique(frame_put(f, k, b)),
{
    let g = frame_put(f, k, b);
    assert forall|i: int, j: int| 0 <= i < j < g.len() implies g[i].0 != g[j].0 by {
        assert(f[i].0 != f[j].0);
    }
}

proof fn lemma_frame_push_get(f: FrameV, k: Seq<char>, b: Binding)
    requires
        frame_get(f, k) is None,
        frame_unique(f),
    ensures
        frame_get(f.push((k, b)), k) == Some(b),
        forall|k2: Seq<char>| k2 != k ==> #[trigger] frame_get(f.push((k, b)), k2) == frame_get(f, k2),
        frame_unique(f.push((k, b))),
    decreases f.len(),
{
    let g = f.push((k, b));
    if f.len() > 0 {
        assert(g.drop_first() =~= f.drop_first().push((k, b)));
        assert(frame_unique(f.drop_first())) by {
            let d = f.drop_first();
            assert forall|i: int, j: int| 0 <= i < j < d.len() implies d[i].0 != d[j].0 by {
                assert(f[i + 1].0 != f[j + 1].0);
            }
        }
        lemma_frame_push_get(f.drop_first(), k, b);
        lemma_frame_get_absent(f, k);
    }
    assert forall|k2: Seq<char>| k2 != k implies #[trigger] frame_get(g, k2) == frame_get(f, k2) by {
        lemma_frame_push_other(f, k, b, k2);
    }
    lemma_frame_get_absent(f, k);
}

proof fn lemma_frame_push_other(f: FrameV, k: Seq<char>, b: Binding, k2: Seq<char>)
    requires
        k2 != k,
    ensures
        frame_get(f.push((k, b)), k2) == frame_get(f, k2),
    decreases f.len(),
{
    if f.len() > 0 {
        assert(f.push((k, b)).drop_first() =~= f.drop_first().push((k, b)));
        lemma_frame_push_other(f.drop_first(), k, b, k2);
    } else {
        assert(f.push((k, b)).drop_first() =~= f);
    }
}

/// A name not bound in a frame occurs at none of its entries.
proof fn lemma_frame_get_absent(f: FrameV, k: Seq<char>)
    requires
        frame_get(f, k) is None,
    ensures
        forall|i: int| 0 <= i < f.len() ==> (#[trigger] f[i]).0 != k,
    decreases f.len(),
{
    if f.len() > 0 {
        lemma_frame_get_absent(f.drop_first(), k);
        assert forall|i: int| 0 <= i < f.len() implies (#[trigger] f[i]).0 != k by {
            if i > 0 {
                assert(f[i] == f.drop_first()[i - 1]);
            }
        }
    }
}

} // verus!
