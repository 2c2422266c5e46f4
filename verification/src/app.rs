//! The viewer's state that is not drawing: the playlist and the track shown,
//! the decoded tracks kept at hand (the track shown and its two neighbours),
//! the FFT window size and the channel shown.

use vstd::prelude::*;

verus! {

/// The smallest FFT window size.
pub const MIN_FFT_SIZE: usize = 256;

/// The largest FFT window size.
pub const MAX_FFT_SIZE: usize = 16384;

/// The FFT window size a viewer starts with.
pub const DEFAULT_FFT_SIZE: usize = 2048;

/// The FFT window sizes the viewer can be set to: the powers of two from
/// 256 to 16384.
pub open spec fn is_window_size(f: nat) -> bool {
    f == 256 || f == 512 || f == 1024 || f == 2048 || f == 4096 || f == 8192 || f == 16384
}

/// The window size after one press of the window key: halved with shift
/// (not below 256), doubled without (not above 16384).
pub open spec fn stepped_window_size(f: nat, shrink: bool) -> nat {
    if shrink {
        if f > MIN_FFT_SIZE {
            f / 2
        } else {
            f
        }
    } else {
        if f < MAX_FFT_SIZE {
            f * 2
        } else {
            f
        }
    }
}

/// The track after `cur` in a playlist of `len` tracks, wrapping around from
/// the last track to the first.
pub open spec fn next_index(len: nat, cur: nat) -> nat {
    if cur + 1 == len {
        0
    } else {
        cur + 1
    }
}

/// The track before `cur` in a playlist of `len` tracks, wrapping around from
/// the first track to the last.
pub open spec fn previous_index(len: nat, cur: nat) -> nat {
    if cur == 0 {
        (len - 1) as nat
    } else {
        (cur - 1) as nat
    }
}

/// Whether track `i` is kept decoded while track `cur` is shown: the track
/// itself and, in a playlist of more than one track, its two neighbours.
pub open spec fn is_active(len: nat, cur: nat, i: nat) -> bool {
    i == cur || (len > 1 && (i == next_index(len, cur) || i == previous_index(len, cur)))
}

/// The tracks kept decoded while track `cur` is shown, each once: the track
/// itself, then the next one, then the previous one.
pub open spec fn active_list(len: nat, cur: nat) -> Seq<usize> {
    if len == 0 {
        Seq::empty()
    } else if len == 1 {
        seq![cur as usize]
    } else if len == 2 {
        seq![cur as usize, next_index(len, cur) as usize]
    } else {
        seq![cur as usize, next_index(len, cur) as usize, previous_index(len, cur) as usize]
    }
}

/// The state of the viewer: `P` stands for a path, `T` for a track being or
/// having been decoded.
pub struct QuspecApp<P, T> {
    playlist: Vec<P>,
    current_index: usize,
    cache: Vec<Option<T>>,
    fft_size: usize,
    current_channel: usize,
}

impl<P, T> QuspecApp<P, T> {
    /// The playlist.
    pub closed spec fn tracks(&self) -> Seq<P> {
        self.playlist@
    }

    /// The position of the track shown.
    pub closed spec fn index(&self) -> nat {
        self.current_index as nat
    }

    /// For each track of the playlist, the decoded track kept for it, if any.
    pub closed spec fn cache(&self) -> Seq<Option<T>> {
        self.cache@
    }

    /// The FFT window size.
    pub closed spec fn window_size(&self) -> nat {
        self.fft_size as nat
    }

    /// The channel shown.
    pub closed spec fn channel(&self) -> nat {
        self.current_channel as nat
    }

    /// What every well-formed state satisfies.
    pub proof fn lemma_wf(&self)
        requires
            self.wf(),
        ensures
            self.cache().len() == self.tracks().len(),
            self.tracks().len() > 0 ==> self.index() < self.tracks().len(),
            self.tracks().len() == 0 ==> self.index() == 0,
            is_window_size(self.window_size()),
    {
    }

    /// One cache slot per track, the track shown within the playlist, and an
    /// allowed window size.
    pub closed spec fn wf(&self) -> bool {
        &&& self.cache@.len() == self.playlist@.len()
        &&& self.playlist@.len() > 0 ==> self.current_index < self.playlist@.len()
        &&& self.playlist@.len() == 0 ==> self.current_index == 0
        &&& is_window_size(self.fft_size as nat)
    }

    /// A viewer of `playlist`, showing its first track with the default
    /// window size on the first channel, with nothing decoded yet.  Returned
    /// beside it: the tracks to start decoding (those kept at hand around
    /// the first track; none for an empty playlist).
    pub fn new(playlist: Vec<P>) -> (r: (Self, Vec<usize>))
        ensures
            r.0.wf(),
            r.0.tracks() == playlist@,
            r.0.cache().len() == playlist@.len(),
            r.0.index() == 0,
            r.0.window_size() == DEFAULT_FFT_SIZE,
            r.0.channel() == 0,
            forall|i: int|
                0 <= i < playlist@.len() ==> (#[trigger] r.0.cache()[i] is None),
            r.1@ == active_list(playlist@.len(), 0),
    {
        let n = playlist.len();
        let mut cache: Vec<Option<T>> = Vec::new();
        for i in 0..n
            invariant
                cache@.len() == i,
                forall|k: int| 0 <= k < i ==> (#[trigger] cache@[k] is None),
        {
            cache.push(None);
        }
        let mut app = QuspecApp {
            playlist,
            current_index: 0,
            cache,
            fft_size: DEFAULT_FFT_SIZE,
            current_channel: 0,
        };
        let missing = app.update_cache();
        proof {
            reveal_with_fuel(Seq::filter, 4);
            let l = active_list(n as nat, 0);
            assert(l.filter(|i: usize| app.cache@[i as int] is None) =~= l) by {
                if n >= 3 {
                    assert(l =~= seq![0usize, 1usize, (n - 1) as usize]);
                    assert(l.drop_last().drop_last().drop_last() =~= Seq::<usize>::empty());
                } else if n == 2 {
                    assert(l.drop_last().drop_last() =~= Seq::<usize>::empty());
                } else if n == 1 {
                    assert(l.drop_last() =~= Seq::<usize>::empty());
                }
            }
        }
        (app, missing)
    }

    /// The tracks kept at hand around the track shown: every other kept
    /// track is dropped, and the ones that are not decoded yet are returned,
    /// each once, in the order of `active_list` (an empty playlist keeps
    /// nothing).
    pub fn update_cache(&mut self) -> (missing: Vec<usize>)
        requires
            old(self).wf(),
        ensures
            final(self).wf(),
            final(self).tracks() == old(self).tracks(),
            final(self).index() == old(self).index(),
            final(self).window_size() == old(self).window_size(),
            final(self).channel() == old(self).channel(),
            final(self).cache().len() == final(self).tracks().len(),
            old(self).cache().len() == old(self).tracks().len(),
            forall|i: int|
                0 <= i < old(self).cache().len() ==> #[trigger] final(self).cache()[i] == if is_active(
                    old(self).tracks().len(),
                    old(self).index(),
                    i as nat,
                ) {
                    old(self).cache()[i]
                } else {
                    None
                },
            missing@ == active_list(old(self).tracks().len(), old(self).index()).filter(
                |i: usize| old(self).cache()[i as int] is None,
            ),
    {
        let n = self.playlist.len();
        let cur = self.current_index;
        if n == 0 {
            return Vec::new();
        }
        let ghost old_cache = self.cache@;
        let ghost old_playlist = self.playlist@;
        let ghost old_fft = self.fft_size;
        let ghost old_channel = self.current_channel;
        let active = active_indices(n, cur);
        for i in 0..n
            invariant
                self.playlist@ == old_playlist,
                self.fft_size == old_fft,
                self.current_channel == old_channel,
                n == self.playlist@.len(),
                self.cache@.len() == n,
                old_cache.len() == n,
                cur == self.current_index,
                self.wf(),
                active@ == active_list(n as nat, cur as nat),
                forall|k: int|
                    0 <= k < n ==> #[trigger] self.cache@[k] == if k < i && !is_active(
                        n as nat,
                        cur as nat,
                        k as nat,
                    ) {
                        None
                    } else {
                        old_cache[k]
                    },
        {
            if !contains_index(&active, i) {
                proof {
                    lemma_active_list_members(n as nat, cur as nat, i as nat);
                }
                self.cache.set(i, None);
            } else {
                proof {
                    lemma_active_list_members(n as nat, cur as nat, i as nat);
                }
            }
        }
        let mut missing: Vec<usize> = Vec::new();
        for j in 0..active.len()
            invariant
                self.playlist@ == old_playlist,
                self.fft_size == old_fft,
                self.current_channel == old_channel,
                self.current_index == cur,
                self.wf(),
                n == self.playlist@.len(),
                self.cache@.len() == n,
                old_cache.len() == n,
                cur < n,
                active@ == active_list(n as nat, cur as nat),
                forall|k: int|
                    0 <= k < n ==> #[trigger] self.cache@[k] == if !is_active(
                        n as nat,
                        cur as nat,
                        k as nat,
                    ) {
                        None
                    } else {
                        old_cache[k]
                    },
                missing@ == active@.take(j as int).filter(|i: usize| old_cache[i as int] is None),
        {
            let idx = active[j];
            proof {
                lemma_active_list_in_range(n as nat, cur as nat);
                lemma_active_list_members(n as nat, cur as nat, idx as nat);
                assert(active@.take(j + 1).drop_last() =~= active@.take(j as int));
                reveal_with_fuel(Seq::filter, 1);
            }
            if self.cache[idx].is_none() {
                missing.push(idx);
            }
        }
        assert(active@.take(active@.len() as int) =~= active@);
        missing
    }
}

impl<P, T> QuspecApp<P, T> {
    /// `after` is this state once track `index` is shown: the playlist and the
    /// window size stay, the channel is the first one, every kept track that
    /// is not active around `index` is dropped while the active ones stay, and
    /// `missing` lists the active tracks that were not kept, each once, in
    /// the order of `active_list`.
    pub open spec fn shows_track(&self, after: Self, index: nat, missing: Option<Vec<usize>>) -> bool {
        &&& after.tracks() == self.tracks()
        &&& after.window_size() == self.window_size()
        &&& after.index() == index
        &&& after.channel() == 0
        &&& after.cache().len() == self.cache().len()
        &&& forall|i: int|
            0 <= i < self.cache().len() ==> #[trigger] after.cache()[i] == if is_active(
                self.tracks().len(),
                index,
                i as nat,
            ) {
                self.cache()[i]
            } else {
                None
            }
        &&& missing matches Some(m) && m@ == active_list(self.tracks().len(), index).filter(
            |i: usize| self.cache()[i as int] is None,
        )
    }

    /// Shows track `index`: the channel goes back to the first one, the
    /// window size stays, and the tracks kept at hand follow (see
    /// `update_cache`, whose result is returned).  An index past the end of
    /// the playlist changes nothing and gives `None`.
    pub fn load_track(&mut self, index: usize) -> (missing: Option<Vec<usize>>)
        requires
            old(self).wf(),
        ensures
            final(self).wf(),
            final(self).cache().len() == final(self).tracks().len(),
            final(self).tracks() == old(self).tracks(),
            final(self).window_size() == old(self).window_size(),
            index >= old(self).tracks().len() ==> missing is None && *final(self) == *old(self),
            index < old(self).tracks().len() ==> old(self).shows_track(
                *final(self),
                index as nat,
                missing,
            ),
    {
        if index >= self.playlist.len() {
            return None;
        }
        self.current_index = index;
        self.current_channel = 0;
        Some(self.update_cache())
    }

    /// Shows the previous track, wrapping around from the first to the last;
    /// a playlist of one track stays as it is (`None`).
    pub fn previous_track(&mut self) -> (missing: Option<Vec<usize>>)
        requires
            old(self).wf(),
        ensures
            final(self).wf(),
            final(self).cache().len() == final(self).tracks().len(),
            final(self).tracks() == old(self).tracks(),
            final(self).window_size() == old(self).window_size(),
            old(self).tracks().len() <= 1 ==> missing is None && *final(self) == *old(self),
            old(self).tracks().len() > 1 ==> old(self).shows_track(
                *final(self),
                previous_index(old(self).tracks().len(), old(self).index()),
                missing,
            ),
    {
        let n = self.playlist.len();
        if n <= 1 {
            return None;
        }
        let prev = previous_index_exec(n, self.current_index);
        self.load_track(prev)
    }

    /// Shows the next track, wrapping around from the last to the first; a
    /// playlist of one track stays as it is (`None`).
    pub fn next_track(&mut self) -> (missing: Option<Vec<usize>>)
        requires
            old(self).wf(),
        ensures
            final(self).wf(),
            final(self).cache().len() == final(self).tracks().len(),
            final(self).tracks() == old(self).tracks(),
            final(self).window_size() == old(self).window_size(),
            old(self).tracks().len() <= 1 ==> missing is None && *final(self) == *old(self),
            old(self).tracks().len() > 1 ==> old(self).shows_track(
                *final(self),
                next_index(old(self).tracks().len(), old(self).index()),
                missing,
            ),
    {
        let n = self.playlist.len();
        if n <= 1 {
            return None;
        }
        let next = next_index_exec(n, self.current_index);
        self.load_track(next)
    }

    /// Keeps the decoded track `track` for track `index` of the playlist.
    pub fn store_track(&mut self, index: usize, track: T)
        requires
            old(self).wf(),
            index < old(self).tracks().len(),
        ensures
            final(self).wf(),
            final(self).cache().len() == final(self).tracks().len(),
            final(self).tracks() == old(self).tracks(),
            final(self).index() == old(self).index(),
            final(self).window_size() == old(self).window_size(),
            final(self).channel() == old(self).channel(),
            final(self).cache() == old(self).cache().update(index as int, Some(track)),
    {
        self.cache.set(index, Some(track));
    }

    /// Takes out the decoded track kept for track `index`, if any.
    pub fn take_track(&mut self, index: usize) -> (track: Option<T>)
        requires
            old(self).wf(),
            index < old(self).tracks().len(),
        ensures
            final(self).wf(),
            final(self).cache().len() == final(self).tracks().len(),
            final(self).tracks() == old(self).tracks(),
            final(self).index() == old(self).index(),
            final(self).window_size() == old(self).window_size(),
            final(self).channel() == old(self).channel(),
            track == old(self).cache()[index as int],
            final(self).cache() == old(self).cache().update(index as int, None),
    {
        let mut slot: Option<T> = None;
        std::mem::swap(&mut slot, &mut self.cache[index]);
        slot
    }

    /// The decoded track kept for the track shown, if any.
    pub fn current_track(&self) -> (track: Option<&T>)
        requires
            self.wf(),
        ensures
            self.tracks().len() == 0 ==> track is None,
            self.tracks().len() > 0 ==> match self.cache()[self.index() as int] {
                Some(t) => track == Some(&t),
                None => track is None,
            },
    {
        if self.playlist.len() == 0 {
            return None;
        }
        match &self.cache[self.current_index] {
            Some(t) => Some(t),
            None => None,
        }
    }

    /// Shows the next channel of a track with `channels` channels, wrapping
    /// around from the last to the first.
    pub fn cycle_channel(&mut self, channels: usize)
        requires
            old(self).wf(),
            channels > 0,
        ensures
            final(self).wf(),
            final(self).tracks() == old(self).tracks(),
            final(self).index() == old(self).index(),
            final(self).cache() == old(self).cache(),
            final(self).window_size() == old(self).window_size(),
            final(self).channel() == (old(self).channel() + 1) % (channels as nat),
    {
        self.current_channel = ((self.current_channel as u128 + 1) % (channels as u128)) as usize;
    }

    /// One press of the window key: halves the FFT window size with shift,
    /// doubles it without, within 256..=16384.  Returns whether it changed.
    pub fn step_window_size(&mut self, shrink: bool) -> (changed: bool)
        requires
            old(self).wf(),
        ensures
            final(self).wf(),
            final(self).tracks() == old(self).tracks(),
            final(self).index() == old(self).index(),
            final(self).cache() == old(self).cache(),
            final(self).channel() == old(self).channel(),
            final(self).window_size() == stepped_window_size(old(self).window_size(), shrink),
            changed == (final(self).window_size() != old(self).window_size()),
    {
        if shrink {
            if self.fft_size > MIN_FFT_SIZE {
                self.fft_size = self.fft_size / 2;
                return true;
            }
        } else {
            if self.fft_size < MAX_FFT_SIZE {
                self.fft_size = self.fft_size * 2;
                return true;
            }
        }
        false
    }

    /// The playlist.
    pub fn playlist(&self) -> (p: &Vec<P>)
        ensures
            p@ == self.tracks(),
    {
        &self.playlist
    }

    /// The position of the track shown in the playlist.
    pub fn current_index(&self) -> (i: usize)
        ensures
            i == self.index(),
    {
        self.current_index
    }

    /// The path of the track shown.
    pub fn current_path(&self) -> (p: &P)
        requires
            self.wf(),
            self.tracks().len() > 0,
        ensures
            *p == self.tracks()[self.index() as int],
    {
        &self.playlist[self.current_index]
    }

    /// The FFT window size.
    pub fn fft_size(&self) -> (f: usize)
        ensures
            f == self.window_size(),
    {
        self.fft_size
    }

    /// The channel shown.
    pub fn current_channel(&self) -> (c: usize)
        ensures
            c == self.channel(),
    {
        self.current_channel
    }
}

/// Calling `update_cache` again once every track it named has been stored
/// changes nothing and names no track: when exactly the active tracks are
/// kept, the cache rule of `update_cache` keeps every slot as it is and no
/// active track is missing.
pub proof fn lemma_update_cache_idempotent<T>(len: nat, cur: nat, cache: Seq<Option<T>>)
    requires
        cur < len <= usize::MAX,
        cache.len() == len,
        forall|i: int| 0 <= i < len ==> ((#[trigger] cache[i]) is Some <==> is_active(len, cur, i as nat)),
    ensures
        forall|i: int|
            0 <= i < len ==> (if is_active(len, cur, i as nat) {
                cache[i]
            } else {
                None
            }) == #[trigger] cache[i],
        active_list(len, cur).filter(|i: usize| cache[i as int] is None) == Seq::<usize>::empty(),
{
    lemma_active_list_in_range(len, cur);
    let l = active_list(len, cur);
    let f = l.filter(|i: usize| cache[i as int] is None);
    assert forall|k: int| 0 <= k < l.len() implies !(cache[l[k] as int] is None) by {
        assert(cache[l[k] as int] is Some);
    }
    reveal_with_fuel(Seq::filter, 4);
    if len >= 3 {
        assert(l.drop_last().drop_last().drop_last() =~= Seq::<usize>::empty());
        assert(l.drop_last().drop_last() =~= seq![l[0]]);
        assert(l.drop_last() =~= seq![l[0], l[1]]);
    } else if len == 2 {
        assert(l.drop_last().drop_last() =~= Seq::<usize>::empty());
        assert(l.drop_last() =~= seq![l[0]]);
    } else {
        assert(l.drop_last() =~= Seq::<usize>::empty());
    }
    assert(f =~= Seq::<usize>::empty());
}

/// The tracks kept decoded around track `cur` are the track itself and, in a
/// playlist of more than one track, the tracks at `(cur + 1) % len` and
/// `(cur + len - 1) % len`; `active_list` lists each of them once.
pub proof fn lemma_kept_tracks(len: nat, cur: nat, i: nat)
    requires
        cur < len <= usize::MAX,
        i < len,
    ensures
        is_active(len, cur, i) <==> (i == cur || (len > 1 && (i as int == (cur + 1) as int % (
        len as int) || i as int == (cur + len - 1) as int % (len as int)))),
        active_list(len, cur).contains(i as usize) <==> (i == cur || (len > 1 && (i as int == (cur
            + 1) as int % (len as int) || i as int == (cur + len - 1) as int % (len as int)))),
        active_list(len, cur).len() == if len == 1 {
            1nat
        } else if len == 2 {
            2nat
        } else {
            3nat
        },
{
    lemma_neighbours_modular(len, cur);
    lemma_active_list_members(len, cur, i);
}

/// Going to the next track and then to the previous one (or the other way
/// round) comes back to the track one started from.
pub proof fn lemma_next_previous_inverse(len: nat, cur: nat)
    requires
        1 < len,
        cur < len,
    ensures
        previous_index(len, next_index(len, cur)) == cur,
        next_index(len, previous_index(len, cur)) == cur,
        next_index(len, cur) < len,
        previous_index(len, cur) < len,
{
}

/// The next and previous tracks are given by the modular formulas
/// `(cur + 1) % len` and `(cur + len - 1) % len`.
pub proof fn lemma_neighbours_modular(len: nat, cur: nat)
    requires
        cur < len,
    ensures
        next_index(len, cur) == (cur + 1) % (len as nat),
        previous_index(len, cur) == (cur + len - 1) % (len as int),
{
    if cur + 1 == len {
        vstd::arithmetic::div_mod::lemma_fundamental_div_mod_converse((cur + 1) as int, len as int, 1, 0);
    } else {
        vstd::arithmetic::div_mod::lemma_fundamental_div_mod_converse((cur + 1) as int, len as int, 0, (cur + 1) as int);
    }
    if cur == 0 {
        vstd::arithmetic::div_mod::lemma_fundamental_div_mod_converse((len - 1) as int, len as int, 0, (len - 1) as int);
    } else {
        vstd::arithmetic::div_mod::lemma_fundamental_div_mod_converse((cur + len - 1) as int, len as int, 1, (cur - 1) as int);
    }
}

/// Every press of the window key leaves the window size one of the allowed
/// sizes; a press that doubled it is undone by a press with shift, and a
/// press with shift that halved it is undone by a press without.
pub proof fn lemma_window_size_steps(f: nat, shrink: bool)
    requires
        is_window_size(f),
    ensures
        is_window_size(stepped_window_size(f, shrink)),
        stepped_window_size(f, false) != f ==> stepped_window_size(stepped_window_size(f, false), true) == f,
        stepped_window_size(f, true) != f ==> stepped_window_size(stepped_window_size(f, true), false) == f,
{
}

/// The members of `active_list` are exactly the active tracks.
pub proof fn lemma_active_list_members(len: nat, cur: nat, i: nat)
    requires
        cur < len <= usize::MAX,
        i <= usize::MAX,
    ensures
        active_list(len, cur).contains(i as usize) <==> (i < len && is_active(len, cur, i)),
{
    lemma_active_list_in_range(len, cur);
    let l = active_list(len, cur);
    if is_active(len, cur, i) && i < len {
        if i == cur {
            assert(l[0] == i);
        } else if i == next_index(len, cur) {
            assert(l[1] == i);
        } else if len == 2 {
            assert(previous_index(len, cur) == next_index(len, cur));
        } else {
            assert(l[2] == i);
        }
    }
}

/// The members of `active_list` are tracks of the playlist, each listed
/// once.
pub proof fn lemma_active_list_in_range(len: nat, cur: nat)
    requires
        cur < len <= usize::MAX,
    ensures
        forall|k: int|
            0 <= k < active_list(len, cur).len() ==> (#[trigger] active_list(len, cur)[k]) < len
                && is_active(len, cur, active_list(len, cur)[k] as nat),
        forall|a: int, b: int|
            0 <= a < b < active_list(len, cur).len() ==> #[trigger] active_list(len, cur)[a]
                != #[trigger] active_list(len, cur)[b],
{
}

fn contains_index(v: &Vec<usize>, x: usize) -> (r: bool)
    ensures
        r == v@.contains(x),
{
    let mut k: usize = 0;
    while k < v.len()
        invariant
            k <= v@.len(),
            forall|m: int| 0 <= m < k ==> v@[m] != x,
        decreases v@.len() - k,
    {
        if v[k] == x {
            assert(v@[k as int] == x);
            return true;
        }
        k = k + 1;
    }
    false
}

fn next_index_exec(len: usize, cur: usize) -> (r: usize)
    requires
        cur < len,
    ensures
        r == next_index(len as nat, cur as nat),
{
    if cur + 1 == len {
        0
    } else {
        cur + 1
    }
}

fn previous_index_exec(len: usize, cur: usize) -> (r: usize)
    requires
        cur < len,
    ensures
        r == previous_index(len as nat, cur as nat),
{
    if cur == 0 {
        len - 1
    } else {
        cur - 1
    }
}

/// The tracks to keep decoded while track `cur` of `len` is shown.
fn active_indices(len: usize, cur: usize) -> (v: Vec<usize>)
    requires
        cur < len,
    ensures
        v@ == active_list(len as nat, cur as nat),
{
    let mut v: Vec<usize> = Vec::new();
    v.push(cur);
    if len > 1 {
        v.push(next_index_exec(len, cur));
        if len > 2 {
            v.push(previous_index_exec(len, cur));
        }
    }
    assert(v@ =~= active_list(len as nat, cur as nat));
    v
}

} // verus!
