//! Rain on the LED ball: every `TICK_INTERVAL` ticks a drop hits the ball
//! and a colored wave spreads from it; every LED shows the latest wave that
//! has reached it.
use vstd::prelude::*;

verus! {

/// Ticks between two drops.
pub const TICK_INTERVAL: u64 = 50;

/// How many drops are remembered.
pub const MAX_IMPACTS: usize = 100;

/// Number of drop colors.
pub const N_COLORS: u8 = 6;

/// The RGB levels of drop color `i`: red, green, blue, yellow, magenta,
/// cyan.
pub open spec fn color_spec(i: u8) -> [u8; 3] {
    if i == 0 {
        [255, 0, 0]
    } else if i == 1 {
        [0, 255, 0]
    } else if i == 2 {
        [0, 0, 255]
    } else if i == 3 {
        [255, 255, 0]
    } else if i == 4 {
        [255, 0, 255]
    } else {
        [0, 255, 255]
    }
}

/// The two colors mixed as light: each channel at the brighter level.
pub open spec fn mix(a: [u8; 3], b: [u8; 3]) -> [u8; 3] {
    [
        if a[0] >= b[0] { a[0] } else { b[0] },
        if a[1] >= b[1] { a[1] } else { b[1] },
        if a[2] >= b[2] { a[2] } else { b[2] },
    ]
}

/// The drop colors are the three primaries red, green and blue at full
/// level, then their mixes yellow (red and green), magenta (red and blue)
/// and cyan (green and blue); no two drop colors are the same.
pub proof fn lemma_drop_colors()
    ensures
        forall|i: u8, j: int|
            i < 3 && 0 <= j < 3 ==> #[trigger] color_spec(i)[j] == if i == j {
                255u8
            } else {
                0u8
            },
        color_spec(3) == mix(color_spec(0), color_spec(1)),
        color_spec(4) == mix(color_spec(0), color_spec(2)),
        color_spec(5) == mix(color_spec(1), color_spec(2)),
        forall|i: u8, j: u8|
            i < N_COLORS && j < N_COLORS && i != j ==> #[trigger] color_spec(i) != #[trigger] color_spec(j),
{
    assert(color_spec(3) =~= mix(color_spec(0), color_spec(1)));
    assert(color_spec(4) =~= mix(color_spec(0), color_spec(2)));
    assert(color_spec(5) =~= mix(color_spec(1), color_spec(2)));
    assert forall|i: u8, j: u8|
        i < N_COLORS && j < N_COLORS && i != j implies #[trigger] color_spec(i) != #[trigger] color_spec(j) by {
        if i < 3 && j < 3 {
            assert(color_spec(i)[i as int] != color_spec(j)[i as int]);
        } else if color_spec(i) == color_spec(j) {
            let ci = color_spec(i);
            let cj = color_spec(j);
            assert(ci[0] == cj[0] && ci[1] == cj[1] && ci[2] == cj[2]);
        }
    }
}

/// The RGB levels of drop color `i`.
pub fn impact_color(i: u8) -> (r: [u8; 3])
    requires
        i < N_COLORS,
    ensures
        r == color_spec(i),
{
    match i {
        0 => [255, 0, 0],
        1 => [0, 255, 0],
        2 => [0, 0, 255],
        3 => [255, 255, 0],
        4 => [255, 0, 255],
        _ => [0, 255, 255],
    }
}

/// A drop: where and when it hit, and its color.
pub struct Impact<P> {
    pub pos: P,
    pub start: u64,
    pub color: u8,
}

/// The drops remembered, oldest first.
pub struct Rain<P> {
    impacts: Vec<Impact<P>>,
}

/// The drops that hit at tick `t`.
pub open spec fn is_impact_tick(t: u64) -> bool {
    t % TICK_INTERVAL == 0
}

/// Index `k` is the drop to show among drops with hit times `starts`, whose
/// waves reach the point at `arrivals`, at tick `t`: its wave has arrived,
/// no arrived drop hit later, and every arrived drop that hit as late comes
/// after it.
pub open spec fn is_latest_arrived(starts: Seq<u64>, arrivals: Seq<u64>, t: u64, k: int) -> bool {
    &&& 0 <= k < starts.len()
    &&& arrivals[k] <= t
    &&& forall|j: int| 0 <= j < starts.len() && arrivals[j] <= t ==> starts[j] <= starts[k]
    &&& forall|j: int| 0 <= j < k && arrivals[j] <= t ==> starts[j] < starts[k]
}

/// The last `MAX_IMPACTS` of `drops`.
pub open spec fn kept_drops<P>(drops: Seq<Impact<P>>) -> Seq<Impact<P>> {
    if drops.len() > MAX_IMPACTS {
        drops.subrange(drops.len() - MAX_IMPACTS, drops.len() as int)
    } else {
        drops
    }
}

/// At most `MAX_IMPACTS` drops are kept: the newest ones, in their order,
/// with nothing dropped while there is room.
pub proof fn lemma_kept_drops<P>(drops: Seq<Impact<P>>)
    ensures
        kept_drops(drops).len() <= MAX_IMPACTS,
        kept_drops(drops).len() == if drops.len() > MAX_IMPACTS {
            MAX_IMPACTS as int
        } else {
            drops.len() as int
        },
        forall|i: int|
            0 <= i < kept_drops(drops).len() ==> #[trigger] kept_drops(drops)[i] == drops[drops.len()
                - kept_drops(drops).len() + i],
{
}

impl<P> Rain<P> {
    /// The drops, oldest first.
    pub closed spec fn drops(&self) -> Seq<Impact<P>> {
        self.impacts@
    }

    /// The hit times of the drops, oldest drop first.
    pub open spec fn starts(&self) -> Seq<u64> {
        Seq::new(self.drops().len(), |i: int| self.drops()[i].start)
    }

    /// The colors of the drops, oldest drop first.
    pub open spec fn colors(&self) -> Seq<u8> {
        Seq::new(self.drops().len(), |i: int| self.drops()[i].color)
    }

    /// Every drop color is one of the `N_COLORS`.
    pub open spec fn wf(&self) -> bool {
        forall|i: int| 0 <= i < self.drops().len() ==> #[trigger] self.drops()[i].color < N_COLORS
    }

    /// No drops yet.
    pub fn new() -> (r: Self)
        ensures
            r.wf(),
            r.drops() == Seq::<Impact<P>>::empty(),
    {
        let r = Rain { impacts: Vec::new() };
        assert(r.drops() =~= Seq::<Impact<P>>::empty());
        r
    }

    /// Whether a drop hits at tick `t`.
    pub fn wants_impact(t: u64) -> (r: bool)
        ensures
            r == is_impact_tick(t),
    {
        t % TICK_INTERVAL == 0
    }

    /// The drops, oldest first.
    pub fn impacts(&self) -> (r: &[Impact<P>])
        ensures
            r@ == self.drops(),
    {
        self.impacts.as_slice()
    }

    /// Tick `t`: at a drop tick the drop `drawn` (where it hits and its
    /// color) is added with hit time `t`, and only the last `MAX_IMPACTS`
    /// drops are kept; at other ticks nothing changes.
    pub fn tick(&mut self, t: u64, drawn: Option<(P, u8)>)
        requires
            old(self).wf(),
            is_impact_tick(t) ==> (drawn matches Some((_, c)) && c < N_COLORS),
        ensures
            final(self).wf(),
            !is_impact_tick(t) ==> final(self).drops() == old(self).drops(),
            is_impact_tick(t) ==> final(self).drops() == kept_drops(
                old(self).drops().push(
                    Impact { pos: drawn.unwrap().0, start: t, color: drawn.unwrap().1 },
                ),
            ),
    {
        if t % TICK_INTERVAL != 0 {
            return ;
        }
        match drawn {
            Some((pos, color)) => {
                let ghost all = old(self).impacts@.push(Impact { pos, start: t, color });
                self.impacts.push(Impact { pos, start: t, color });
                let ghost dropped: int = 0;
                assert forall|i: int| 0 <= i < all.len() implies #[trigger] all[i].color
                    < N_COLORS by {
                    if i < old(self).drops().len() {
                        assert(old(self).drops()[i] == all[i]);
                    }
                }
                assert(self.impacts@ =~= all.subrange(0, all.len() as int));
                while self.impacts.len() > MAX_IMPACTS
                    invariant
                        forall|i: int| 0 <= i < all.len() ==> #[trigger] all[i].color < N_COLORS,
                        0 <= dropped <= all.len(),
                        self.impacts@ == all.subrange(dropped, all.len() as int),
                        all.len() > MAX_IMPACTS ==> dropped <= all.len() - MAX_IMPACTS,
                        all.len() <= MAX_IMPACTS ==> dropped == 0,
                    decreases self.impacts@.len(),
                {
                    self.impacts.remove(0);
                    proof {
                        dropped = dropped + 1;
                    }
                    assert(self.impacts@ =~= all.subrange(dropped, all.len() as int));
                }
            },
            None => {},
        }
    }

    /// The index of the drop to show at a point that the drops' waves reach
    /// at the times `arrivals`, at tick `t`: of the drops whose wave has
    /// arrived, the one that hit last; `None` when no wave has arrived.
    pub fn nearest_at(&self, arrivals: &[u64], t: u64) -> (r: Option<usize>)
        requires
            arrivals@.len() == self.starts().len(),
        ensures
            r matches Some(k) ==> is_latest_arrived(self.starts(), arrivals@, t, k as int),
            r is None <==> forall|j: int| 0 <= j < arrivals@.len() ==> arrivals@[j] > t,
    {
        let mut best: Option<usize> = None;
        let mut k: usize = 0;
        let n = self.impacts.len();
        while k < n
            invariant
                k <= n,
                n == self.starts().len(),
                arrivals@.len() == n,
                best matches Some(b) ==> is_latest_arrived(
                    self.starts().subrange(0, k as int),
                    arrivals@.subrange(0, k as int),
                    t,
                    b as int,
                ),
                best is None <==> forall|j: int| 0 <= j < k ==> arrivals@[j] > t,
            decreases n - k,
        {
            let start = self.impacts[k].start;
            assert(start == self.starts()[k as int]);
            if arrivals[k] <= t {
                match best {
                    None => {
                        best = Some(k);
                    },
                    Some(b) => {
                        if start > self.impacts[b].start {
                            best = Some(k);
                        }
                    },
                }
            }
            k = k + 1;
            assert(self.starts().subrange(0, k as int).drop_last() =~= self.starts().subrange(
                0,
                k - 1,
            ));
        }
        assert(self.starts().subrange(0, n as int) =~= self.starts());
        assert(arrivals@.subrange(0, n as int) =~= arrivals@);
        best
    }

    /// The color at a point that the drops' waves reach at the times
    /// `arrivals`, at tick `t`: that of the drop `nearest_at` picks, or
    /// black when no wave has arrived.
    pub fn get_color_at(&self, arrivals: &[u64], t: u64) -> (r: [u8; 3])
        requires
            self.wf(),
            arrivals@.len() == self.starts().len(),
        ensures
            (forall|j: int| 0 <= j < arrivals@.len() ==> arrivals@[j] > t) ==> r == [0u8, 0u8, 0u8],
            (exists|j: int| 0 <= j < arrivals@.len() && arrivals@[j] <= t) ==> exists|k: int|
                is_latest_arrived(self.starts(), arrivals@, t, k),
            forall|k: int|
                is_latest_arrived(self.starts(), arrivals@, t, k) ==> r == color_spec(
                    #[trigger] self.colors()[k],
                ),
    {
        proof {
            assert forall|k1: int, k2: int|
                is_latest_arrived(self.starts(), arrivals@, t, k1) && is_latest_arrived(
                    self.starts(),
                    arrivals@,
                    t,
                    k2,
                ) implies k1 == k2 by {
                if k1 < k2 {
                    assert(self.starts()[k1] < self.starts()[k2]);
                } else if k2 < k1 {
                    assert(self.starts()[k2] < self.starts()[k1]);
                }
            }
        }
        match self.nearest_at(arrivals, t) {
            Some(k) => {
                assert(self.colors()[k as int] == self.impacts@[k as int].color);
                impact_color(self.impacts[k].color)
            },
            None => [0, 0, 0],
        }
    }
}

} // verus!
