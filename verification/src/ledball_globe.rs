//! A texture wrapped around the LED ball: every LED shows the average of
//! the texels that lie nearest to it.
use vstd::prelude::*;
use vstd::seq_lib::{commutative_foldl, lemma_fold_left_permutation, to_multiset_len};

verus! {

/// The texel coordinates that are assigned to LED `led`, among the first
/// `n` texels in row-major order of a texture `w` texels wide.
pub open spec fn assigned_texels(assignment: Seq<usize>, w: nat, led: nat, n: nat) -> Seq<
    (u32, u32),
>
    decreases n,
{
    if n == 0 {
        Seq::empty()
    } else {
        let prev = assigned_texels(assignment, w, led, (n - 1) as nat);
        let k = n - 1;
        if assignment[k] == led {
            prev.push((((k % (w as int)) as u32), ((k / (w as int)) as u32)))
        } else {
            prev
        }
    }
}

/// The number of texels of the LEDs below `size`.
pub open spec fn texel_count(assignment: Seq<usize>, w: nat, size: nat, n: nat) -> nat
    decreases size,
{
    if size == 0 {
        0
    } else {
        texel_count(assignment, w, (size - 1) as nat, n) + assigned_texels(
            assignment,
            w,
            (size - 1) as nat,
            n,
        ).len()
    }
}

proof fn lemma_texel_count_step(assignment: Seq<usize>, w: nat, size: nat, n: nat)
    requires
        n < assignment.len(),
    ensures
        texel_count(assignment, w, size, n + 1) == texel_count(assignment, w, size, n) + (if assignment[n as int] < size {
            1nat
        } else {
            0nat
        }),
    decreases size,
{
    if size > 0 {
        lemma_texel_count_step(assignment, w, (size - 1) as nat, n);
    }
}

proof fn lemma_texel_count_none(assignment: Seq<usize>, w: nat, size: nat)
    ensures
        texel_count(assignment, w, size, 0) == 0,
    decreases size,
{
    if size > 0 {
        lemma_texel_count_none(assignment, w, (size - 1) as nat);
    }
}

/// Every texel is shown by exactly one LED, the one it is assigned to: its
/// coordinates are among that LED's texels, and the LEDs have as many
/// texels in all as there are texels.
pub proof fn lemma_texels_partition(assignment: Seq<usize>, w: nat, size: nat, n: nat)
    requires
        n <= assignment.len(),
        forall|k: int| 0 <= k < assignment.len() ==> #[trigger] assignment[k] < size,
    ensures
        forall|k: int|
            0 <= k < n ==> assigned_texels(assignment, w, #[trigger] assignment[k] as nat, n).contains(
                (((k % (w as int)) as u32), ((k / (w as int)) as u32)),
            ),
        texel_count(assignment, w, size, n) == n,
    decreases n,
{
    if n == 0 {
        lemma_texel_count_none(assignment, w, size);
    } else {
        let m = (n - 1) as nat;
        lemma_texels_partition(assignment, w, size, m);
        lemma_texel_count_step(assignment, w, size, m);
        assert forall|k: int| 0 <= k < n implies assigned_texels(
            assignment,
            w,
            #[trigger] assignment[k] as nat,
            n,
        ).contains((((k % (w as int)) as u32), ((k / (w as int)) as u32))) by {
            let c = (((k % (w as int)) as u32), ((k / (w as int)) as u32));
            let cm = ((((m as int) % (w as int)) as u32), (((m as int) / (w as int)) as u32));
            let prev = assigned_texels(assignment, w, assignment[k] as nat, m);
            assert(assigned_texels(assignment, w, assignment[k] as nat, n) == if assignment[m as int]
                == assignment[k] {
                prev.push(cm)
            } else {
                prev
            });
            if k < m {
                let j = choose|j: int| 0 <= j < prev.len() && prev[j] == c;
                if assignment[m as int] == assignment[k] {
                    assert(prev.push(cm)[j] == c);
                }
            } else {
                assert(prev.push(c)[prev.len() as int] == c);
            }
        }
    }
}

/// For every LED the texel coordinates that it shows.
pub struct StaticPixelMap {
    assocs: Vec<Vec<(u32, u32)>>,
}

impl StaticPixelMap {
    /// The texels of every LED.
    pub closed spec fn texels(&self) -> Seq<Seq<(u32, u32)>> {
        Seq::new(self.assocs@.len(), |i: int| self.assocs@[i]@)
    }

    /// The map for `size` LEDs and a texture of `w` by `h` texels, where
    /// `assignment[y * w + x]` is the LED nearest to texel `(x, y)`: every
    /// LED gets its texels in row-major order.
    pub fn new(size: usize, w: u32, h: u32, assignment: &[usize]) -> (r: Self)
        requires
            assignment@.len() == w as int * h as int,
            forall|k: int| 0 <= k < assignment@.len() ==> #[trigger] assignment@[k] < size,
        ensures
            r.texels().len() == size,
            forall|i: int|
                0 <= i < size ==> #[trigger] r.texels()[i] == assigned_texels(
                    assignment@,
                    w as nat,
                    i as nat,
                    assignment@.len(),
                ),
    {
        let mut assocs: Vec<Vec<(u32, u32)>> = Vec::new();
        let mut i: usize = 0;
        while i < size
            invariant
                i <= size,
                assocs@.len() == i,
                forall|j: int| 0 <= j < i ==> (#[trigger] assocs@[j])@ == Seq::<(u32, u32)>::empty(),
            decreases size - i,
        {
            assocs.push(Vec::new());
            i = i + 1;
        }
        let n = assignment.len();
        let mut k: usize = 0;
        while k < n
            invariant
                k <= n,
                n == assignment@.len(),
                n == w as int * h as int,
                assocs@.len() == size,
                forall|k2: int| 0 <= k2 < assignment@.len() ==> #[trigger] assignment@[k2] < size,
                forall|j: int|
                    0 <= j < size ==> (#[trigger] assocs@[j])@ == assigned_texels(
                        assignment@,
                        w as nat,
                        j as nat,
                        k as nat,
                    ),
            decreases n - k,
        {
            let led = assignment[k];
            assert(w > 0) by (nonlinear_arith)
                requires
                    k < n,
                    n == w as int * h as int,
            ;
            let x = (k % (w as usize)) as u32;
            let yk = k / (w as usize);
            assert(yk < h) by (nonlinear_arith)
                requires
                    k < n,
                    n == w as int * h as int,
                    yk == k / (w as usize),
                    w > 0,
            ;
            let y = yk as u32;
            let ghost before = assocs@;
            assocs[led].push((x, y));
            assert forall|j: int| 0 <= j < size implies (#[trigger] assocs@[j])@ == assigned_texels(
                assignment@,
                w as nat,
                j as nat,
                (k + 1) as nat,
            ) by {
                if j != led {
                    assert(assocs@[j] == before[j]);
                }
            }
            k = k + 1;
        }
        StaticPixelMap { assocs }
    }

    /// The texels of LED `i`.
    pub fn get_texcoords_for_pixel(&self, i: usize) -> (r: &[(u32, u32)])
        requires
            i < self.texels().len(),
        ensures
            r@ == self.texels()[i as int],
    {
        self.assocs[i].as_slice()
    }
}

/// An RGB image held row by row.
pub struct Texture {
    width: u32,
    height: u32,
    rgb: Vec<[u8; 3]>,
}

impl Texture {
    /// Width in texels.
    pub closed spec fn w(&self) -> nat {
        self.width as nat
    }

    /// Height in texels.
    pub closed spec fn h(&self) -> nat {
        self.height as nat
    }

    /// The texel at `(x, y)`.
    pub closed spec fn texel(&self, x: int, y: int) -> [u8; 3] {
        self.rgb@[y * self.width + x]
    }

    /// The image of `width` by `height` texels given row by row in `rgb`.
    pub fn new(width: u32, height: u32, rgb: Vec<[u8; 3]>) -> (r: Self)
        requires
            rgb@.len() == width as int * height as int,
        ensures
            r.wf(),
            r.w() == width,
            r.h() == height,
            forall|x: int, y: int|
                0 <= x < width && 0 <= y < height ==> #[trigger] r.texel(x, y) == rgb@[y * width
                    + x],
    {
        Texture { width, height, rgb }
    }

    /// The texels fill the image.
    pub closed spec fn wf(&self) -> bool {
        self.rgb@.len() == self.width as int * self.height as int
    }

    /// Width in texels.
    pub fn width(&self) -> (r: u32)
        ensures
            r == self.w(),
    {
        self.width
    }

    /// The texel at `(x, y)`.
    pub fn get_pixel(&self, x: u32, y: u32) -> (r: [u8; 3])
        requires
            self.wf(),
            x < self.w(),
            y < self.h(),
        ensures
            r == self.texel(x as int, y as int),
    {
        assert((y as int) * (self.width as int) + (x as int) < (self.width as int) * (self.height as int))
            by (nonlinear_arith)
            requires
                x < self.width,
                y < self.height,
        ;
        let total = self.rgb.len();
        assert((y as int) * (self.width as int) <= (y as int) * (self.width as int) + (x as int));
        let k = y as usize * self.width as usize + x as usize;
        self.rgb[k]
    }
}

/// The column that texel column `x` shows at frame `t`: the texture turns
/// by one column per frame.
pub open spec fn turned_column(x: u32, t: u32, w: nat) -> int {
    (x - t) % (w as int)
}

/// The sum of channel `c` over the texels `coords` at frame `t`.
pub open spec fn channel_sum(texture: Texture, coords: Seq<(u32, u32)>, t: u32, c: int) -> int
    decreases coords.len(),
{
    if coords.len() == 0 {
        0
    } else {
        let (x, y) = coords.last();
        channel_sum(texture, coords.drop_last(), t, c) + texture.texel(
            turned_column(x, t, texture.w()),
            y as int,
        )[c] as int
    }
}

/// The average color of the texels `coords` at frame `t`.
pub open spec fn average_color(texture: Texture, coords: Seq<(u32, u32)>, t: u32) -> [u8; 3] {
    [
        (channel_sum(texture, coords, t, 0) / coords.len() as int) as u8,
        (channel_sum(texture, coords, t, 1) / coords.len() as int) as u8,
        (channel_sum(texture, coords, t, 2) / coords.len() as int) as u8,
    ]
}

/// Every texel of `coords` lies in the texture and, turned by `t`, still
/// to the right of column 0.
pub open spec fn texels_in_reach(texture: Texture, coords: Seq<(u32, u32)>, t: u32) -> bool {
    forall|k: int|
        0 <= k < coords.len() ==> {
            &&& t <= (#[trigger] coords[k]).0
            &&& coords[k].0 < texture.w()
            &&& coords[k].1 < texture.h()
        }
}

proof fn lemma_average_bound(sum: int, n: int)
    requires
        n > 0,
        0 <= sum <= 255 * n,
    ensures
        0 <= sum / n <= 255,
{
    assert(sum / n <= 255) by (nonlinear_arith)
        requires
            n > 0,
            0 <= sum <= 255 * n,
    ;
}

/// The value of channel `c` of the texel that `p` shows at frame `t`, added
/// to `acc`: folding it over texels adds their channel values up.
pub open spec fn add_texel(texture: Texture, t: u32, c: int) -> spec_fn(int, (u32, u32)) -> int {
    |acc: int, p: (u32, u32)| acc + texture.texel(turned_column(p.0, t, texture.w()), p.1 as int)[c] as int
}

proof fn lemma_channel_sum_fold(texture: Texture, coords: Seq<(u32, u32)>, t: u32, c: int)
    ensures
        channel_sum(texture, coords, t, c) == coords.fold_left(0int, add_texel(texture, t, c)),
        0 <= channel_sum(texture, coords, t, c) <= 255 * coords.len(),
    decreases coords.len(),
{
    if coords.len() > 0 {
        lemma_channel_sum_fold(texture, coords.drop_last(), t, c);
    }
}

/// The color an LED shows is the mean of its texels: each channel is the
/// sum of that channel over all its texels, in whatever order they are
/// listed, divided by their number and rounded down.
pub proof fn lemma_average_is_mean(
    texture: Texture,
    coords: Seq<(u32, u32)>,
    other: Seq<(u32, u32)>,
    t: u32,
    c: int,
)
    requires
        coords.len() > 0,
        0 <= c < 3,
    ensures
        average_color(texture, coords, t)[c] as int == coords.fold_left(
            0int,
            add_texel(texture, t, c),
        ) / coords.len() as int,
        coords.to_multiset() == other.to_multiset() ==> average_color(texture, coords, t)
            == average_color(texture, other, t),
{
    assert forall|k: int| 0 <= k < 3 implies (#[trigger] average_color(texture, coords, t)[k]) as int
        == coords.fold_left(0int, add_texel(texture, t, k)) / coords.len() as int by {
        lemma_channel_sum_fold(texture, coords, t, k);
        lemma_average_bound(channel_sum(texture, coords, t, k), coords.len() as int);
    }
    if coords.to_multiset() == other.to_multiset() {
        to_multiset_len(coords);
        to_multiset_len(other);
        assert forall|k: int| 0 <= k < 3 implies channel_sum(texture, coords, t, k) == channel_sum(
            texture,
            other,
            t,
            k,
        ) by {
            let f = add_texel(texture, t, k);
            assert(commutative_foldl(f));
            lemma_fold_left_permutation(coords, other, f, 0int);
            lemma_channel_sum_fold(texture, coords, t, k);
            lemma_channel_sum_fold(texture, other, t, k);
        }
        assert(average_color(texture, coords, t) =~= average_color(texture, other, t));
    }
}

/// Frame `t` of the turning texture: every LED that has texels shows their
/// average color; an LED without texels keeps its color.
pub fn render_frame(pixels: &mut Vec<[u8; 3]>, map: &StaticPixelMap, texture: &Texture, t: u32)
    requires
        texture.wf(),
        old(pixels)@.len() == map.texels().len(),
        forall|i: int|
            0 <= i < map.texels().len() ==> texels_in_reach(*texture, #[trigger] map.texels()[i], t),
        forall|i: int|
            0 <= i < map.texels().len() ==> 255 * (#[trigger] map.texels()[i]).len() <= usize::MAX,
    ensures
        final(pixels)@.len() == old(pixels)@.len(),
        forall|i: int|
            0 <= i < map.texels().len() ==> #[trigger] final(pixels)@[i] == (if map.texels()[i].len()
                > 0 {
                average_color(*texture, map.texels()[i], t)
            } else {
                old(pixels)@[i]
            }),
        forall|i: int, c: int|
            0 <= i < map.texels().len() && map.texels()[i].len() > 0 && 0 <= c < 3 ==> (#[trigger] final(pixels)@[i][c]) as int == map.texels()[i].fold_left(
                0int,
                add_texel(*texture, t, c),
            ) / map.texels()[i].len() as int,
{
    let n = pixels.len();
    let mut led: usize = 0;
    while led < n
        invariant
            led <= n,
            n == pixels@.len(),
            n == map.texels().len(),
            texture.wf(),
            forall|i: int|
                0 <= i < map.texels().len() ==> texels_in_reach(
                    *texture,
                    #[trigger] map.texels()[i],
                    t,
                ),
            forall|i: int|
                0 <= i < map.texels().len() ==> 255 * (#[trigger] map.texels()[i]).len()
                    <= usize::MAX,
            forall|i: int|
                0 <= i < n ==> #[trigger] pixels@[i] == (if i < led {
                    if map.texels()[i].len() > 0 {
                        average_color(*texture, map.texels()[i], t)
                    } else {
                        old(pixels)@[i]
                    }
                } else {
                    old(pixels)@[i]
                }),
        decreases n - led,
    {
        let coords = map.get_texcoords_for_pixel(led);
        let ghost cs = coords@;
        assert(texels_in_reach(*texture, cs, t));
        let mut size: usize = 0;
        let mut r: usize = 0;
        let mut g: usize = 0;
        let mut b: usize = 0;
        let mut k: usize = 0;
        let width = texture.width();
        while k < coords.len()
            invariant
                k <= cs.len(),
                coords@ == cs,
                texture.wf(),
                width == texture.w(),
                texels_in_reach(*texture, cs, t),
                255 * cs.len() <= usize::MAX,
                size == k,
                r == channel_sum(*texture, cs.subrange(0, k as int), t, 0),
                g == channel_sum(*texture, cs.subrange(0, k as int), t, 1),
                b == channel_sum(*texture, cs.subrange(0, k as int), t, 2),
                r <= 255 * k,
                g <= 255 * k,
                b <= 255 * k,
            decreases cs.len() - k,
        {
            let (x, y) = coords[k];
            assert(t <= cs[k as int].0);
            let ground = texture.get_pixel((x - t) % width, y);
            assert(cs.subrange(0, k + 1).drop_last() =~= cs.subrange(0, k as int));
            r = r + ground[0] as usize;
            g = g + ground[1] as usize;
            b = b + ground[2] as usize;
            size = size + 1;
            k = k + 1;
        }
        assert(cs.subrange(0, cs.len() as int) =~= cs);
        if size > 0 {
            proof {
                lemma_average_bound(r as int, size as int);
                lemma_average_bound(g as int, size as int);
                lemma_average_bound(b as int, size as int);
            }
            pixels.set(led, [(r / size) as u8, (g / size) as u8, (b / size) as u8]);
        }
        led = led + 1;
    }
    assert forall|i: int, c: int|
        0 <= i < map.texels().len() && map.texels()[i].len() > 0 && 0 <= c < 3 implies (#[trigger] pixels@[i][c]) as int == map.texels()[i].fold_left(
            0int,
            add_texel(*texture, t, c),
        ) / map.texels()[i].len() as int by {
        lemma_average_is_mean(*texture, map.texels()[i], map.texels()[i], t, c);
    }
}

} // verus!
