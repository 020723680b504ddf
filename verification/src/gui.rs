//! State of the windowing layer: named windows with their title, size, shown
//! frame and trackbars. The registry is an explicit value; the operations of
//! `Gui` act on it.
use vstd::prelude::*;
use crate::error::IrisError;

verus! {

/// Map from the names of `v` (as character sequences) to the images of its
/// values under `f`; later entries win.
pub open spec fn keyed_map<V, W>(v: Seq<(String, V)>, f: spec_fn(V) -> W) -> Map<Seq<char>, W>
    decreases v.len(),
{
    if v.len() == 0 {
        Map::empty()
    } else {
        keyed_map(v.drop_last(), f).insert(v.last().0@, f(v.last().1))
    }
}

/// No two entries of `v` share a name.
pub open spec fn keys_unique<V>(v: Seq<(String, V)>) -> bool {
    forall|i: int, j: int| 0 <= i < j < v.len() ==> (#[trigger] v[i]).0@ != (#[trigger] v[j]).0@
}

proof fn lemma_keyed_map<V, W>(v: Seq<(String, V)>, f: spec_fn(V) -> W)
    requires
        keys_unique(v),
    ensures
        forall|k: Seq<char>| #[trigger]
            keyed_map(v, f).dom().contains(k) <==> exists|i: int| 0 <= i < v.len() && (#[trigger] v[i]).0@ == k,
        forall|i: int| 0 <= i < v.len() ==> #[trigger] keyed_map(v, f)[v[i].0@] == f(v[i].1),
    decreases v.len(),
{
    if v.len() > 0 {
        let t = v.drop_last();
        assert forall|i: int, j: int| 0 <= i < j < t.len() implies (#[trigger] t[i]).0@ != (#[trigger] t[j]).0@ by {
            assert(t[i] == v[i] && t[j] == v[j]);
        }
        lemma_keyed_map(t, f);
        let m = keyed_map(v, f);
        let last = v[v.len() - 1];
        assert(v.last() == last);
        assert(m == keyed_map(t, f).insert(last.0@, f(last.1)));
        assert forall|k: Seq<char>| #[trigger] m.dom().contains(k) <==> exists|i: int| 0 <= i < v.len() && (#[trigger] v[i]).0@ == k by {
            if m.dom().contains(k) && k != last.0@ {
                assert(keyed_map(t, f).dom().contains(k));
                let i = choose|i: int| 0 <= i < t.len() && (#[trigger] t[i]).0@ == k;
                assert(v[i] == t[i]);
            }
            if k == last.0@ {
                assert(v[v.len() - 1].0@ == k);
            }
            if exists|i: int| 0 <= i < v.len() && (#[trigger] v[i]).0@ == k {
                let i = choose|i: int| 0 <= i < v.len() && (#[trigger] v[i]).0@ == k;
                if i < v.len() - 1 {
                    assert(t[i] == v[i]);
                }
            }
        }
        assert forall|i: int| 0 <= i < v.len() implies #[trigger] m[v[i].0@] == f(v[i].1) by {
            if i < v.len() - 1 {
                assert(t[i] == v[i]);
                assert(v[i].0@ != v[v.len() - 1].0@);
                assert(keyed_map(t, f)[t[i].0@] == f(t[i].1));
            }
        }
    }
}

proof fn lemma_keyed_update<V, W>(v: Seq<(String, V)>, f: spec_fn(V) -> W, i: int, e: (String, V))
    requires
        keys_unique(v),
        0 <= i < v.len(),
        e.0@ == v[i].0@,
    ensures
        keys_unique(v.update(i, e)),
        keyed_map(v.update(i, e), f) == keyed_map(v, f).insert(e.0@, f(e.1)),
{
    let u = v.update(i, e);
    assert forall|a: int, b: int| 0 <= a < b < u.len() implies (#[trigger] u[a]).0@ != (#[trigger] u[b]).0@ by {
        assert(u[a].0@ == v[a].0@);
        assert(u[b].0@ == v[b].0@);
    }
    lemma_keyed_map(v, f);
    lemma_keyed_map(u, f);
    let lhs = keyed_map(u, f);
    let rhs = keyed_map(v, f).insert(e.0@, f(e.1));
    assert forall|k: Seq<char>| lhs.dom().contains(k) <==> rhs.dom().contains(k) by {
        if lhs.dom().contains(k) {
            let a = choose|a: int| 0 <= a < u.len() && (#[trigger] u[a]).0@ == k;
            assert(v[a].0@ == k);
        }
        if keyed_map(v, f).dom().contains(k) {
            let a = choose|a: int| 0 <= a < v.len() && (#[trigger] v[a]).0@ == k;
            assert(u[a].0@ == k);
        }
        if k == e.0@ {
            assert(u[i].0@ == k);
        }
    }
    assert forall|k: Seq<char>| lhs.dom().contains(k) implies lhs[k] == rhs[k] by {
        let a = choose|a: int| 0 <= a < u.len() && (#[trigger] u[a]).0@ == k;
        assert(lhs[u[a].0@] == f(u[a].1));
        if a != i {
            assert(u[a] == v[a]);
            assert(keyed_map(v, f)[v[a].0@] == f(v[a].1));
        }
    }
    assert(lhs =~= rhs);
}

proof fn lemma_keyed_push<V, W>(v: Seq<(String, V)>, f: spec_fn(V) -> W, e: (String, V))
    requires
        keys_unique(v),
        !keyed_map(v, f).dom().contains(e.0@),
    ensures
        keys_unique(v.push(e)),
        keyed_map(v.push(e), f) == keyed_map(v, f).insert(e.0@, f(e.1)),
{
    lemma_keyed_map(v, f);
    let u = v.push(e);
    assert forall|a: int, b: int| 0 <= a < b < u.len() implies (#[trigger] u[a]).0@ != (#[trigger] u[b]).0@ by {
        if b == v.len() {
            assert(u[a] == v[a]);
            if v[a].0@ == e.0@ {
                assert(keyed_map(v, f).dom().contains(e.0@));
            }
        } else {
            assert(u[a] == v[a] && u[b] == v[b]);
        }
    }
    assert(u.drop_last() =~= v);
}

proof fn lemma_keyed_remove<V, W>(v: Seq<(String, V)>, f: spec_fn(V) -> W, i: int)
    requires
        keys_unique(v),
        0 <= i < v.len(),
    ensures
        keys_unique(v.remove(i)),
        keyed_map(v.remove(i), f) == keyed_map(v, f).remove(v[i].0@),
{
    let u = v.remove(i);
    assert forall|a: int, b: int| 0 <= a < b < u.len() implies (#[trigger] u[a]).0@ != (#[trigger] u[b]).0@ by {
        let sa = if a < i { a } else { a + 1 };
        let sb = if b < i { b } else { b + 1 };
        assert(u[a] == v[sa] && u[b] == v[sb]);
    }
    lemma_keyed_map(v, f);
    lemma_keyed_map(u, f);
    let lhs = keyed_map(u, f);
    let rhs = keyed_map(v, f).remove(v[i].0@);
    assert forall|k: Seq<char>| lhs.dom().contains(k) <==> rhs.dom().contains(k) by {
        if lhs.dom().contains(k) {
            let a = choose|a: int| 0 <= a < u.len() && (#[trigger] u[a]).0@ == k;
            let sa = if a < i { a } else { a + 1 };
            assert(v[sa].0@ == k);
            assert(sa != i);
        }
        if rhs.dom().contains(k) {
            let a = choose|a: int| 0 <= a < v.len() && (#[trigger] v[a]).0@ == k;
            assert(a != i);
            let ua = if a < i { a } else { a - 1 };
            assert(u[ua] == v[a]);
        }
    }
    assert forall|k: Seq<char>| lhs.dom().contains(k) implies lhs[k] == rhs[k] by {
        let a = choose|a: int| 0 <= a < u.len() && (#[trigger] u[a]).0@ == k;
        let sa = if a < i { a } else { a + 1 };
        assert(u[a] == v[sa]);
        assert(keyed_map(v, f)[v[sa].0@] == f(v[sa].1));
    }
    assert(lhs =~= rhs);
}

/// Position and range of a trackbar.
#[derive(Clone, Copy, Debug)]
pub struct TrackbarState {
    pub value: i32,
    pub max_val: i32,
}

/// A window: its title, size, trackbars (by name) and last shown RGB frame.
pub struct WindowState {
    pub title: String,
    pub width: usize,
    pub height: usize,
    pub trackbars: Vec<(String, TrackbarState)>,
    pub image_bytes: Option<Vec<u8>>,
}

/// Abstract trackbar: (position, maximum).
pub open spec fn trackbar_view(t: TrackbarState) -> (i32, i32) {
    (t.value, t.max_val)
}

/// Abstract window: (title, width, height, trackbars by name, shown frame).
pub type WindowView = (Seq<char>, usize, usize, Map<Seq<char>, (i32, i32)>, Option<Seq<u8>>);

pub open spec fn window_view(w: WindowState) -> WindowView {
    (
        w.title@,
        w.width,
        w.height,
        keyed_map(w.trackbars@, |t: TrackbarState| trackbar_view(t)),
        match w.image_bytes {
            Some(b) => Some(b@),
            None => None,
        },
    )
}

/// A freshly created window named `name`: titled by its name, 640 by 480,
/// without trackbars or frame.
pub open spec fn fresh_window(name: Seq<char>) -> WindowView {
    (name, 640, 480, Map::empty(), None)
}

/// Position reported for trackbar `tb` of window `win`: its value, or 0 when
/// either is missing.
pub open spec fn trackbar_pos(m: Map<Seq<char>, WindowView>, tb: Seq<char>, win: Seq<char>) -> i32 {
    if m.dom().contains(win) && m[win].3.dom().contains(tb) {
        m[win].3[tb].0
    } else {
        0
    }
}

/// Registry after setting trackbar `tb` of `win` to `pos`, capped at its maximum.
pub open spec fn with_trackbar_pos(m: Map<Seq<char>, WindowView>, tb: Seq<char>, win: Seq<char>, pos: i32) -> Map<Seq<char>, WindowView> {
    if m.dom().contains(win) && m[win].3.dom().contains(tb) {
        let w = m[win];
        let t = w.3[tb];
        let v = if pos < t.1 { pos } else { t.1 };
        m.insert(win, (w.0, w.1, w.2, w.3.insert(tb, (v, t.1)), w.4))
    } else {
        m
    }
}

/// Registry after creating trackbar `tb` in `win` at `value` with maximum `count`.
pub open spec fn with_trackbar(m: Map<Seq<char>, WindowView>, tb: Seq<char>, win: Seq<char>, value: i32, count: i32) -> Map<Seq<char>, WindowView> {
    if m.dom().contains(win) {
        let w = m[win];
        m.insert(win, (w.0, w.1, w.2, w.3.insert(tb, (value, count)), w.4))
    } else {
        m
    }
}

fn find_trackbar(bars: &Vec<(String, TrackbarState)>, name: &str) -> (r: Option<usize>)
    requires
        keys_unique(bars@),
    ensures
        r matches Some(i) ==> i < bars.len() && bars@[i as int].0@ == name@,
        r is None ==> !keyed_map(bars@, |t: TrackbarState| trackbar_view(t)).dom().contains(name@),
{
    proof {
        lemma_keyed_map(bars@, |t: TrackbarState| trackbar_view(t));
    }
    let key = name.to_owned();
    let mut i: usize = 0;
    while i < bars.len()
        invariant
            i <= bars.len(),
            key@ == name@,
            forall|j: int| 0 <= j < i ==> (#[trigger] bars@[j]).0@ != name@,
        decreases bars.len() - i,
    {
        if bars[i].0 == key {
            return Some(i);
        }
        i = i + 1;
    }
    None
}

/// The set of open windows.
pub struct WindowRegistry {
    windows: Vec<(String, WindowState)>,
}

impl WindowRegistry {
    pub closed spec fn wf(&self) -> bool {
        &&& keys_unique(self.windows@)
        &&& forall|i: int| 0 <= i < self.windows.len() ==> keys_unique(#[trigger] self.windows@[i].1.trackbars@)
    }

    /// The windows by name.
    pub closed spec fn view(&self) -> Map<Seq<char>, WindowView> {
        keyed_map(self.windows@, |w: WindowState| window_view(w))
    }

    /// An empty registry.
    pub fn new() -> (r: Self)
        ensures
            r.wf(),
            r.view() == Map::<Seq<char>, WindowView>::empty(),
    {
        WindowRegistry { windows: Vec::new() }
    }

    /// Whether a window named `name` is open.
    pub fn has_window(&self, name: &str) -> (b: bool)
        requires
            self.wf(),
        ensures
            b == self.view().dom().contains(name@),
    {
        proof {
            lemma_keyed_map(self.windows@, |w: WindowState| window_view(w));
        }
        match self.find(name) {
            Some(i) => {
                proof {
                    let k = self.windows@[i as int].0@;
                    assert(k == name@);
                }
                true
            },
            None => false,
        }
    }

    fn find(&self, name: &str) -> (r: Option<usize>)
        requires
            self.wf(),
        ensures
            r matches Some(i) ==> i < self.windows.len() && self.windows@[i as int].0@ == name@,
            r is None ==> !self.view().dom().contains(name@),
    {
        proof {
            lemma_keyed_map(self.windows@, |w: WindowState| window_view(w));
        }
        let key = name.to_owned();
        let mut i: usize = 0;
        while i < self.windows.len()
            invariant
                i <= self.windows.len(),
                key@ == name@,
                forall|j: int| 0 <= j < i ==> (#[trigger] self.windows@[j]).0@ != name@,
            decreases self.windows.len() - i,
        {
            if self.windows[i].0 == key {
                return Some(i);
            }
            i = i + 1;
        }
        None
    }

    /// Creates (or resets) the window `name`.
    pub fn named_window(&mut self, name: &str)
        requires
            old(self).wf(),
        ensures
            final(self).wf(),
            final(self).view() == old(self).view().insert(name@, fresh_window(name@)),
    {
        let ws = WindowState {
            title: name.to_owned(),
            width: 640,
            height: 480,
            trackbars: Vec::new(),
            image_bytes: None,
        };
        let entry = (name.to_owned(), ws);
        proof {
            assert(keyed_map(entry.1.trackbars@, |t: TrackbarState| trackbar_view(t)) =~= Map::<Seq<char>, (i32, i32)>::empty());
        }
        match self.find(name) {
            Some(i) => {
                let ghost before = self.windows@;
                self.windows.set(i, entry);
                proof {
                    lemma_keyed_update(before, |w: WindowState| window_view(w), i as int, self.windows@[i as int]);
                    assert(self.windows@ == before.update(i as int, self.windows@[i as int]));
                }
            },
            None => {
                let ghost before = self.windows@;
                self.windows.push(entry);
                proof {
                    lemma_keyed_push(before, |w: WindowState| window_view(w), self.windows@.last());
                    assert(self.windows@ == before.push(self.windows@.last()));
                }
            },
        }
        proof {
            assert forall|i: int| 0 <= i < self.windows.len() implies keys_unique(#[trigger] self.windows@[i].1.trackbars@) by {
            }
        }
    }

    /// Closes the window `name`.
    pub fn destroy_window(&mut self, name: &str)
        requires
            old(self).wf(),
        ensures
            final(self).wf(),
            final(self).view() == old(self).view().remove(name@),
    {
        match self.find(name) {
            Some(i) => {
                let ghost before = self.windows@;
                self.windows.remove(i);
                proof {
                    lemma_keyed_remove(before, |w: WindowState| window_view(w), i as int);
                    assert forall|j: int| 0 <= j < self.windows.len() implies keys_unique(#[trigger] self.windows@[j].1.trackbars@) by {
                        let sj = if j < i { j } else { j + 1 };
                        assert(self.windows@[j] == before[sj]);
                    }
                }
            },
            None => {
                proof {
                    assert(self.view() =~= self.view().remove(name@));
                }
            },
        }
    }

    /// Closes all windows.
    pub fn destroy_all_windows(&mut self)
        ensures
            final(self).wf(),
            final(self).view() == Map::<Seq<char>, WindowView>::empty(),
    {
        self.windows = Vec::new();
    }

    /// Updates window `win` by `f` on the abstract and `g` on the concrete state.
    /// Sets the title of window `win`, if it exists.
    pub fn set_window_title(&mut self, win: &str, title: &str)
        requires
            old(self).wf(),
        ensures
            final(self).wf(),
            final(self).view() == (if old(self).view().dom().contains(win@) {
                let w = old(self).view()[win@];
                old(self).view().insert(win@, (title@, w.1, w.2, w.3, w.4))
            } else {
                old(self).view()
            }),
    {
        proof {
            lemma_keyed_map(self.windows@, |w: WindowState| window_view(w));
        }
        match self.find(win) {
            Some(i) => {
                let ghost before = self.windows@;
                let (key, ws) = self.windows.remove(i);
                let nws = WindowState { title: title.to_owned(), width: ws.width, height: ws.height, trackbars: ws.trackbars, image_bytes: ws.image_bytes };
                self.windows.insert(i, (key, nws));
                proof {
                    assert(self.windows@ =~= before.update(i as int, self.windows@[i as int]));
                    lemma_keyed_update(before, |w: WindowState| window_view(w), i as int, self.windows@[i as int]);
                    assert forall|j: int| 0 <= j < self.windows.len() implies keys_unique(#[trigger] self.windows@[j].1.trackbars@) by {
                        if j != i {
                            assert(self.windows@[j] == before[j]);
                        } else {
                            assert(self.windows@[j].1.trackbars@ == before[j].1.trackbars@);
                        }
                    }
                }
            },
            None => {},
        }
    }

    /// Sets the size of window `win`, if it exists.
    pub fn resize_window(&mut self, win: &str, width: usize, height: usize)
        requires
            old(self).wf(),
        ensures
            final(self).wf(),
            final(self).view() == (if old(self).view().dom().contains(win@) {
                let w = old(self).view()[win@];
                old(self).view().insert(win@, (w.0, width, height, w.3, w.4))
            } else {
                old(self).view()
            }),
    {
        proof {
            lemma_keyed_map(self.windows@, |w: WindowState| window_view(w));
        }
        match self.find(win) {
            Some(i) => {
                let ghost before = self.windows@;
                let (key, ws) = self.windows.remove(i);
                let nws = WindowState { title: ws.title, width, height, trackbars: ws.trackbars, image_bytes: ws.image_bytes };
                self.windows.insert(i, (key, nws));
                proof {
                    assert(self.windows@ =~= before.update(i as int, self.windows@[i as int]));
                    lemma_keyed_update(before, |w: WindowState| window_view(w), i as int, self.windows@[i as int]);
                    assert forall|j: int| 0 <= j < self.windows.len() implies keys_unique(#[trigger] self.windows@[j].1.trackbars@) by {
                        if j != i {
                            assert(self.windows@[j] == before[j]);
                        } else {
                            assert(self.windows@[j].1.trackbars@ == before[j].1.trackbars@);
                        }
                    }
                }
            },
            None => {},
        }
    }

    /// Creates (or resets) trackbar `tb` in window `win`, if the window
    /// exists, at position `value` with maximum `count`.
    pub fn create_trackbar(&mut self, tb: &str, win: &str, value: i32, count: i32)
        requires
            old(self).wf(),
        ensures
            final(self).wf(),
            final(self).view() == with_trackbar(old(self).view(), tb@, win@, value, count),
    {
        proof {
            lemma_keyed_map(self.windows@, |w: WindowState| window_view(w));
        }
        match self.find(win) {
            Some(i) => {
                let ghost before = self.windows@;
                let (key, ws) = self.windows.remove(i);
                let mut bars = ws.trackbars;
                let ghost old_bars = bars@;
                proof {
                    assert(keys_unique(before[i as int].1.trackbars@));
                }
                let entry = (tb.to_owned(), TrackbarState { value, max_val: count });
                match find_trackbar(&bars, tb) {
                    Some(j) => {
                        bars.set(j, entry);
                        proof {
                            lemma_keyed_update(old_bars, |t: TrackbarState| trackbar_view(t), j as int, bars@[j as int]);
                            assert(bars@ == old_bars.update(j as int, bars@[j as int]));
                        }
                    },
                    None => {
                        bars.push(entry);
                        proof {
                            lemma_keyed_push(old_bars, |t: TrackbarState| trackbar_view(t), bars@.last());
                            assert(bars@ == old_bars.push(bars@.last()));
                        }
                    },
                }
                let nws = WindowState { title: ws.title, width: ws.width, height: ws.height, trackbars: bars, image_bytes: ws.image_bytes };
                self.windows.insert(i, (key, nws));
                proof {
                    assert(self.windows@ =~= before.update(i as int, self.windows@[i as int]));
                    lemma_keyed_update(before, |w: WindowState| window_view(w), i as int, self.windows@[i as int]);
                    assert forall|j: int| 0 <= j < self.windows.len() implies keys_unique(#[trigger] self.windows@[j].1.trackbars@) by {
                        if j != i {
                            assert(self.windows@[j] == before[j]);
                        }
                    }
                }
            },
            None => {},
        }
    }

    /// Position of trackbar `tb` in window `win`; 0 when either is missing.
    pub fn get_trackbar_pos(&self, tb: &str, win: &str) -> (pos: i32)
        requires
            self.wf(),
        ensures
            pos == trackbar_pos(self.view(), tb@, win@),
    {
        proof {
            lemma_keyed_map(self.windows@, |w: WindowState| window_view(w));
        }
        match self.find(win) {
            Some(i) => {
                let bars = &self.windows[i].1.trackbars;
                proof {
                    assert(keys_unique(self.windows@[i as int].1.trackbars@));
                    lemma_keyed_map(bars@, |t: TrackbarState| trackbar_view(t));
                }
                match find_trackbar(bars, tb) {
                    Some(j) => bars[j].1.value,
                    None => 0,
                }
            },
            None => 0,
        }
    }

    /// Moves trackbar `tb` of window `win` to `pos`, capped at its maximum;
    /// nothing happens when either is missing.
    pub fn set_trackbar_pos(&mut self, tb: &str, win: &str, pos: i32)
        requires
            old(self).wf(),
        ensures
            final(self).wf(),
            final(self).view() == with_trackbar_pos(old(self).view(), tb@, win@, pos),
    {
        proof {
            lemma_keyed_map(self.windows@, |w: WindowState| window_view(w));
        }
        match self.find(win) {
            Some(i) => {
                let ghost before = self.windows@;
                proof {
                    assert(keys_unique(before[i as int].1.trackbars@));
                    lemma_keyed_map(before[i as int].1.trackbars@, |t: TrackbarState| trackbar_view(t));
                }
                match find_trackbar(&self.windows[i].1.trackbars, tb) {
                    Some(j) => {
                        let (key, ws) = self.windows.remove(i);
                        let mut bars = ws.trackbars;
                        let ghost old_bars = bars@;
                        let cur = bars[j].1;
                        let v = if pos < cur.max_val { pos } else { cur.max_val };
                        let bkey = tb.to_owned();
                        bars.set(j, (bkey, TrackbarState { value: v, max_val: cur.max_val }));
                        proof {
                            lemma_keyed_update(old_bars, |t: TrackbarState| trackbar_view(t), j as int, bars@[j as int]);
                            assert(bars@ == old_bars.update(j as int, bars@[j as int]));
                        }
                        let nws = WindowState { title: ws.title, width: ws.width, height: ws.height, trackbars: bars, image_bytes: ws.image_bytes };
                        self.windows.insert(i, (key, nws));
                        proof {
                            assert(self.windows@ =~= before.update(i as int, self.windows@[i as int]));
                            lemma_keyed_update(before, |w: WindowState| window_view(w), i as int, self.windows@[i as int]);
                            assert forall|k: int| 0 <= k < self.windows.len() implies keys_unique(#[trigger] self.windows@[k].1.trackbars@) by {
                                if k != i {
                                    assert(self.windows@[k] == before[k]);
                                }
                            }
                        }
                    },
                    None => {},
                }
            },
            None => {},
        }
    }

    /// Records the frame shown in window `win` (`width` by `height` RGB
    /// bytes), creating the window, titled by its name, when it does not exist.
    pub fn show_frame(&mut self, win: &str, width: usize, height: usize, rgb: Vec<u8>)
        requires
            old(self).wf(),
        ensures
            final(self).wf(),
            final(self).view() == (if old(self).view().dom().contains(win@) {
                let w = old(self).view()[win@];
                old(self).view().insert(win@, (w.0, width, height, w.3, Some(rgb@)))
            } else {
                old(self).view().insert(win@, (win@, width, height, Map::empty(), Some(rgb@)))
            }),
    {
        proof {
            lemma_keyed_map(self.windows@, |w: WindowState| window_view(w));
        }
        let ghost bytes = rgb@;
        match self.find(win) {
            Some(i) => {
                let ghost before = self.windows@;
                let (key, ws) = self.windows.remove(i);
                let nws = WindowState { title: ws.title, width, height, trackbars: ws.trackbars, image_bytes: Some(rgb) };
                self.windows.insert(i, (key, nws));
                proof {
                    assert(self.windows@ =~= before.update(i as int, self.windows@[i as int]));
                    lemma_keyed_update(before, |w: WindowState| window_view(w), i as int, self.windows@[i as int]);
                    assert forall|j: int| 0 <= j < self.windows.len() implies keys_unique(#[trigger] self.windows@[j].1.trackbars@) by {
                        if j != i {
                            assert(self.windows@[j] == before[j]);
                        } else {
                            assert(self.windows@[j].1.trackbars@ == before[j].1.trackbars@);
                        }
                    }
                }
            },
            None => {
                let ghost before = self.windows@;
                let ws = WindowState { title: win.to_owned(), width, height, trackbars: Vec::new(), image_bytes: Some(rgb) };
                self.windows.push((win.to_owned(), ws));
                proof {
                    assert(keyed_map(self.windows@.last().1.trackbars@, |t: TrackbarState| trackbar_view(t)) =~= Map::<Seq<char>, (i32, i32)>::empty());
                    lemma_keyed_push(before, |w: WindowState| window_view(w), self.windows@.last());
                    assert(self.windows@ == before.push(self.windows@.last()));
                    assert forall|j: int| 0 <= j < self.windows.len() implies keys_unique(#[trigger] self.windows@[j].1.trackbars@) by {
                        if j < before.len() {
                            assert(self.windows@[j] == before[j]);
                        }
                    }
                }
            },
        }
    }
}


/// Desktop windowing operations on a window registry.
pub struct Gui;

impl Gui {
    /// Creates (or resets) the window `name`.
    pub fn named_window(reg: &mut WindowRegistry, name: &str) -> (r: Result<(), IrisError>)
        requires
            old(reg).wf(),
        ensures
            r is Ok,
            final(reg).wf(),
            final(reg).view() == old(reg).view().insert(name@, fresh_window(name@)),
    {
        reg.named_window(name);
        Ok(())
    }

    /// Closes the window `name`.
    pub fn destroy_window(reg: &mut WindowRegistry, name: &str) -> (r: Result<(), IrisError>)
        requires
            old(reg).wf(),
        ensures
            r is Ok,
            final(reg).wf(),
            final(reg).view() == old(reg).view().remove(name@),
    {
        reg.destroy_window(name);
        Ok(())
    }

    /// Closes all windows.
    pub fn destroy_all_windows(reg: &mut WindowRegistry) -> (r: Result<(), IrisError>)
        ensures
            r is Ok,
            final(reg).wf(),
            final(reg).view() == Map::<Seq<char>, WindowView>::empty(),
    {
        reg.destroy_all_windows();
        Ok(())
    }

    /// Sets the title of window `winname`, if it exists.
    pub fn set_window_title(reg: &mut WindowRegistry, winname: &str, title: &str) -> (r: Result<(), IrisError>)
        requires
            old(reg).wf(),
        ensures
            r is Ok,
            final(reg).wf(),
            final(reg).view() == (if old(reg).view().dom().contains(winname@) {
                let w = old(reg).view()[winname@];
                old(reg).view().insert(winname@, (title@, w.1, w.2, w.3, w.4))
            } else {
                old(reg).view()
            }),
    {
        reg.set_window_title(winname, title);
        Ok(())
    }

    /// Sets the size of window `winname`, if it exists.
    pub fn resize_window(reg: &mut WindowRegistry, winname: &str, width: usize, height: usize) -> (r: Result<(), IrisError>)
        requires
            old(reg).wf(),
        ensures
            r is Ok,
            final(reg).wf(),
            final(reg).view() == (if old(reg).view().dom().contains(winname@) {
                let w = old(reg).view()[winname@];
                old(reg).view().insert(winname@, (w.0, width, height, w.3, w.4))
            } else {
                old(reg).view()
            }),
    {
        reg.resize_window(winname, width, height);
        Ok(())
    }

    /// Creates trackbar `trackbar_name` in window `winname`, if the window exists.
    pub fn create_trackbar(reg: &mut WindowRegistry, trackbar_name: &str, winname: &str, value: i32, count: i32) -> (r: Result<(), IrisError>)
        requires
            old(reg).wf(),
        ensures
            r is Ok,
            final(reg).wf(),
            final(reg).view() == with_trackbar(old(reg).view(), trackbar_name@, winname@, value, count),
    {
        reg.create_trackbar(trackbar_name, winname, value, count);
        Ok(())
    }

    /// Position of a trackbar; 0 when the window or trackbar is missing.
    pub fn get_trackbar_pos(reg: &WindowRegistry, trackbar_name: &str, winname: &str) -> (r: Result<i32, IrisError>)
        requires
            reg.wf(),
        ensures
            r == Ok::<i32, IrisError>(trackbar_pos(reg.view(), trackbar_name@, winname@)),
    {
        Ok(reg.get_trackbar_pos(trackbar_name, winname))
    }

    /// Moves a trackbar, capped at its maximum.
    pub fn set_trackbar_pos(reg: &mut WindowRegistry, trackbar_name: &str, winname: &str, pos: i32) -> (r: Result<(), IrisError>)
        requires
            old(reg).wf(),
        ensures
            r is Ok,
            final(reg).wf(),
            final(reg).view() == with_trackbar_pos(old(reg).view(), trackbar_name@, winname@, pos),
    {
        reg.set_trackbar_pos(trackbar_name, winname, pos);
        Ok(())
    }
}

/// A trackbar reads back the position it was created at, as long as its
/// window exists.
pub proof fn law_trackbar_reads_created_value(m: Map<Seq<char>, WindowView>, tb: Seq<char>, win: Seq<char>, value: i32, count: i32)
    requires
        m.dom().contains(win),
    ensures
        trackbar_pos(with_trackbar(m, tb, win, value, count), tb, win) == value,
{
}

/// A trackbar reads back the position it was moved to, capped at its
/// maximum; its maximum is unchanged.
pub proof fn law_trackbar_reads_set_value(m: Map<Seq<char>, WindowView>, tb: Seq<char>, win: Seq<char>, pos: i32)
    requires
        m.dom().contains(win),
        m[win].3.dom().contains(tb),
    ensures
        trackbar_pos(with_trackbar_pos(m, tb, win, pos), tb, win) == (if pos < m[win].3[tb].1 {
            pos
        } else {
            m[win].3[tb].1
        }),
        with_trackbar_pos(m, tb, win, pos)[win].3[tb].1 == m[win].3[tb].1,
{
}

/// Moving a trackbar leaves every other trackbar, in any window, where it was.
pub proof fn law_trackbar_moves_alone(m: Map<Seq<char>, WindowView>, tb: Seq<char>, win: Seq<char>, pos: i32, tb2: Seq<char>, win2: Seq<char>)
    requires
        tb2 != tb || win2 != win,
    ensures
        trackbar_pos(with_trackbar_pos(m, tb, win, pos), tb2, win2) == trackbar_pos(m, tb2, win2),
{
}

/// Trackbars of a window that does not exist read as 0 and cannot be created.
pub proof fn law_trackbar_needs_window(m: Map<Seq<char>, WindowView>, tb: Seq<char>, win: Seq<char>, value: i32, count: i32)
    requires
        !m.dom().contains(win),
    ensures
        trackbar_pos(m, tb, win) == 0,
        with_trackbar(m, tb, win, value, count) == m,
{
}

/// Closing a window that was just created leaves the other windows as they
/// were before, and leaves no window of that name.
pub proof fn law_destroy_undoes_create(m: Map<Seq<char>, WindowView>, name: Seq<char>)
    ensures
        m.insert(name, fresh_window(name)).remove(name) == m.remove(name),
        !m.dom().contains(name) ==> m.insert(name, fresh_window(name)).remove(name) == m,
{
    assert(m.insert(name, fresh_window(name)).remove(name) =~= m.remove(name));
    if !m.dom().contains(name) {
        assert(m.remove(name) =~= m);
    }
}

/// A newly created (or re-created) window has no trackbars: every trackbar
/// of it reads 0.
pub proof fn law_new_window_has_no_trackbars(m: Map<Seq<char>, WindowView>, name: Seq<char>, tb: Seq<char>)
    ensures
        trackbar_pos(m.insert(name, fresh_window(name)), tb, name) == 0,
{
}

} // verus!
