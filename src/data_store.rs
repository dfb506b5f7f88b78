//! Component storage keyed by generational ids, and a system that moves
//! positions by directions.

use vstd::prelude::*;
use crate::id_generator::GenData;

verus! {

/// A store of components of type `T` keyed by generational ids. A store
/// holds at most one component per slot; an id finds it only while its
/// generation is the one the component was stored with.
pub trait EcsStore<T> {
    /// The component that `g` finds, if any.
    spec fn stored_under(&self, g: GenData) -> Option<T>;

    /// Stores `t` under `g`, replacing whatever the slot held.
    fn add(&mut self, g: GenData, t: T)
        requires
            g.pos < usize::MAX,
        ensures
            forall|g2: GenData| #[trigger] final(self).stored_under(g2) == if g2.pos == g.pos {
                if g2.gen == g.gen {
                    Some(t)
                } else {
                    None
                }
            } else {
                old(self).stored_under(g2)
            },
    ;

    /// Empties the slot of `g` if `g` finds a component.
    fn drop(&mut self, g: GenData)
        ensures
            forall|g2: GenData| #[trigger] final(self).stored_under(g2) == if g2.pos == g.pos
                && old(self).stored_under(g) is Some {
                None
            } else {
                old(self).stored_under(g2)
            },
    ;

    /// The component that `g` finds.
    fn get(&self, g: GenData) -> (r: Option<&T>)
        ensures
            r.is_some() == self.stored_under(g).is_some(),
            r.is_some() ==> *r.unwrap() == self.stored_under(g).unwrap(),
    ;

    /// A mutable reference to the component that `g` finds; writing through
    /// it changes that component alone.
    fn get_mut(&mut self, g: GenData) -> (r: Option<&mut T>)
        ensures
            old(self).stored_under(g) is None ==> r.is_none() && forall|g2: GenData| #[trigger]
                final(self).stored_under(g2) == old(self).stored_under(g2),
            old(self).stored_under(g) is Some ==> r.is_some() && *r.unwrap() == old(
                self,
            ).stored_under(g).unwrap() && forall|g2: GenData| #[trigger]
                final(self).stored_under(g2) == if g2 == g {
                    Some(*final(r.unwrap()))
                } else {
                    old(self).stored_under(g2)
                },
    ;
}

/// A component store: slot `pos` holds the generation it was written with
/// and the component, or nothing.
pub struct VecStore<T> {
    items: Vec<Option<(u64, T)>>,
}

/// The component stored under `g` in `s`, if `g` is its current id.
pub open spec fn stored<T>(s: Seq<Option<(u64, T)>>, g: GenData) -> Option<T> {
    if g.pos < s.len() {
        match s[g.pos as int] {
            Some(e) => if e.0 == g.gen {
                Some(e.1)
            } else {
                None
            },
            None => None,
        }
    } else {
        None
    }
}

impl<T> VecStore<T> {
    pub closed spec fn slots(&self) -> Seq<Option<(u64, T)>> {
        self.items@
    }

    /// An empty store.
    pub fn new() -> (r: Self)
        ensures
            r.slots() == Seq::<Option<(u64, T)>>::empty(),
    {
        Self { items: Vec::new() }
    }

    /// Stores `t` under `g`, growing the store with empty slots as needed.
    pub fn add(&mut self, g: GenData, t: T)
        requires
            g.pos < usize::MAX,
        ensures
            final(self).slots().len() == if g.pos < old(self).slots().len() {
                old(self).slots().len() as int
            } else {
                g.pos + 1
            },
            final(self).slots()[g.pos as int] == Some((g.gen, t)),
            forall|i: int|
                0 <= i < final(self).slots().len() && i != g.pos ==> #[trigger] final(self).slots()[i]
                    == if i < old(self).slots().len() {
                    old(self).slots()[i]
                } else {
                    None
                },
    {
        let ghost s0 = self.items@;
        while self.items.len() <= g.pos
            invariant
                g.pos < usize::MAX,
                s0.len() <= self.items@.len(),
                self.items@.len() <= if g.pos < s0.len() {
                    s0.len() as int
                } else {
                    g.pos + 1
                },
                forall|i: int|
                    0 <= i < self.items@.len() ==> #[trigger] self.items@[i] == if i < s0.len() {
                        s0[i]
                    } else {
                        None
                    },
            decreases g.pos + 1 - self.items@.len(),
        {
            self.items.push(None);
        }
        self.items.set(g.pos, Some((g.gen, t)));
    }

    /// Empties the slot of `g` if `g` is its current id.
    pub fn drop(&mut self, g: GenData)
        ensures
            stored(old(self).slots(), g) is Some ==> final(self).slots() == old(self).slots().update(
                g.pos as int,
                None,
            ),
            stored(old(self).slots(), g) is None ==> final(self).slots() == old(self).slots(),
    {
        if g.pos < self.items.len() {
            let current = match &self.items[g.pos] {
                Some((ig, _)) => *ig == g.gen,
                None => false,
            };
            if current {
                self.items.set(g.pos, None);
            }
        }
    }

    /// The component stored under `g`, if `g` is its current id.
    pub fn get(&self, g: GenData) -> (r: Option<&T>)
        ensures
            r.is_some() == stored(self.slots(), g).is_some(),
            r.is_some() ==> *r.unwrap() == stored(self.slots(), g).unwrap(),
    {
        if g.pos < self.items.len() {
            if let Some((ig, d)) = &self.items[g.pos] {
                if *ig == g.gen {
                    return Some(d);
                }
            }
        }
        None
    }

    /// A mutable reference to the component stored under `g`, if `g` is its
    /// current id; writing through it changes that component alone.
    pub fn get_mut(&mut self, g: GenData) -> (r: Option<&mut T>)
        ensures
            stored(old(self).slots(), g) is None ==> r.is_none() && final(self).slots() == old(
                self,
            ).slots(),
            stored(old(self).slots(), g) is Some ==> r.is_some() && *r.unwrap() == stored(
                old(self).slots(),
                g,
            ).unwrap() && final(self).slots() == old(self).slots().update(
                g.pos as int,
                Some((g.gen, *final(r.unwrap()))),
            ),
    {
        if g.pos < self.items.len() {
            let current = match &self.items[g.pos] {
                Some((ig, _)) => *ig == g.gen,
                None => false,
            };
            if current {
                let slot = &mut self.items[g.pos];
                match slot {
                    Some((_, d)) => {
                        return Some(d);
                    },
                    None => {
                        return None;
                    },
                }
            }
        }
        None
    }
}

impl<T> EcsStore<T> for VecStore<T> {
    open spec fn stored_under(&self, g: GenData) -> Option<T> {
        stored(self.slots(), g)
    }

    fn add(&mut self, g: GenData, t: T) {
        VecStore::add(self, g, t);
    }

    fn drop(&mut self, g: GenData) {
        VecStore::drop(self, g);
    }

    fn get(&self, g: GenData) -> (r: Option<&T>) {
        VecStore::get(self, g)
    }

    fn get_mut(&mut self, g: GenData) -> (r: Option<&mut T>) {
        VecStore::get_mut(self, g)
    }
}

/// Strength `s` and health `h`.
#[derive(PartialEq, Eq, Structural)]
pub struct Strength {
    pub s: i16,
    pub h: i16,
}

/// A cell of the board.
#[derive(PartialEq, Eq, Structural)]
pub struct Pos {
    pub x: i32,
    pub y: i32,
}

/// A velocity, in cells per step.
pub struct Dir {
    pub vx: i32,
    pub vy: i32,
}

/// The position after one move, if there is a direction for the same id.
pub open spec fn moved(p: Pos, d: Option<Dir>) -> Pos {
    match d {
        Some(d) => Pos { x: (p.x + d.vx) as i32, y: (p.y + d.vy) as i32 },
        None => p,
    }
}

/// The moves stay within `i32`.
pub open spec fn moves_fit(dirs: Seq<Option<(u64, Dir)>>, poss: Seq<Option<(u64, Pos)>>) -> bool {
    forall|i: int|
        0 <= i < poss.len() && #[trigger] poss[i] is Some ==> {
            let (g, p) = poss[i]->0;
            match stored(dirs, GenData { pos: i as usize, gen: g }) {
                Some(d) => i32::MIN <= p.x + d.vx <= i32::MAX && i32::MIN <= p.y + d.vy <= i32::MAX,
                None => true,
            }
        }
}

/// Moves every stored position by the direction stored under the same id.
pub fn move_sys(dir_store: &VecStore<Dir>, pos_store: &mut VecStore<Pos>)
    requires
        moves_fit(dir_store.slots(), old(pos_store).slots()),
    ensures
        final(pos_store).slots().len() == old(pos_store).slots().len(),
        forall|i: int|
            0 <= i < old(pos_store).slots().len() ==> #[trigger] final(pos_store).slots()[i] == match old(
                pos_store,
            ).slots()[i] {
                Some((g, p)) => Some((g, moved(p, stored(dir_store.slots(), GenData { pos: i as usize, gen: g })))),
                None => None,
            },
{
    let n = pos_store.items.len();
    let mut i: usize = 0;
    while i < n
        invariant
            n == old(pos_store).slots().len(),
            n == pos_store.items@.len(),
            i <= n,
            moves_fit(dir_store.slots(), old(pos_store).slots()),
            forall|j: int|
                0 <= j < n ==> #[trigger] pos_store.items@[j] == if j < i {
                    match old(pos_store).slots()[j] {
                        Some((g, p)) => Some((g, moved(p, stored(dir_store.slots(), GenData { pos: j as usize, gen: g })))),
                        None => None,
                    }
                } else {
                    old(pos_store).slots()[j]
                },
        decreases n - i,
    {
        let entry = match &pos_store.items[i] {
            Some((g, p)) => Some((*g, p.x, p.y)),
            None => None,
        };
        if let Some((g, x, y)) = entry {
            let gd = GenData { pos: i, gen: g };
            match dir_store.get(gd) {
                Some(dir) => {
                    assert(old(pos_store).slots()[i as int] is Some);
                    pos_store.items.set(i, Some((g, Pos { x: x + dir.vx, y: y + dir.vy })));
                },
                None => {},
            }
        }
        i = i + 1;
    }
}

/// Relies on fastrand::u8 over `..5`, which draws a value in `0..=4` from
/// the thread-local generator.
#[verifier::external_body]
fn roll() -> (r: u8)
    ensures
        r < 5,
{
    fastrand::u8(..5)
}

/// `v` limited to `-3..=3`.
pub open spec fn clamp3(v: int) -> int {
    if v < -3 {
        -3
    } else if v > 3 {
        3
    } else {
        v
    }
}

/// A direction after one steering step: `roll` 0 to 3 nudges it right,
/// left, down or up (4 leaves it); a position within four cells of an edge
/// turns it away from that edge; then each component is limited to
/// `-3..=3`.
pub open spec fn steered(d: Dir, roll: u8, pos: Option<Pos>, width: int, height: int) -> Dir {
    let vx = if roll == 0 {
        d.vx + 1
    } else if roll == 1 {
        d.vx - 1
    } else {
        d.vx as int
    };
    let vy = if roll == 2 {
        d.vy + 1
    } else if roll == 3 {
        d.vy - 1
    } else {
        d.vy as int
    };
    let (vx, vy) = match pos {
        Some(p) => {
            let vx = if p.x > width - 4 {
                -1
            } else if p.x < 4 {
                1
            } else {
                vx
            };
            let vy = if p.y > height - 4 {
                -1
            } else if p.y < 4 {
                1
            } else {
                vy
            };
            (vx, vy)
        },
        None => (vx, vy),
    };
    Dir { vx: clamp3(vx) as i32, vy: clamp3(vy) as i32 }
}

/// One steering step of a direction, for a given roll of `0..5`.
pub fn steer(d: &Dir, roll: u8, pos: Option<&Pos>, width: u16, height: u16) -> (r: Dir)
    requires
        i32::MIN < d.vx < i32::MAX,
        i32::MIN < d.vy < i32::MAX,
    ensures
        r == steered(
            *d,
            roll,
            match pos {
                Some(p) => Some(*p),
                None => None,
            },
            width as int,
            height as int,
        ),
{
    let (width, height) = (width as i32, height as i32);
    let mut vx = d.vx;
    let mut vy = d.vy;
    if roll == 0 {
        vx += 1;
    } else if roll == 1 {
        vx -= 1;
    } else if roll == 2 {
        vy += 1;
    } else if roll == 3 {
        vy -= 1;
    }
    if let Some(pos) = pos {
        if pos.x < 4 {
            vx = 1;
        }
        if pos.y < 4 {
            vy = 1;
        }
        if pos.x > width - 4 {
            vx = -1;
        }
        if pos.y > height - 4 {
            vy = -1;
        }
    }
    let vx = if vx < -3 {
        -3
    } else if vx > 3 {
        3
    } else {
        vx
    };
    let vy = if vy < -3 {
        -3
    } else if vy > 3 {
        3
    } else {
        vy
    };
    Dir { vx, vy }
}

/// Every stored direction can take a step of one.
pub open spec fn dirs_fit(dirs: Seq<Option<(u64, Dir)>>) -> bool {
    forall|i: int|
        0 <= i < dirs.len() ==> match #[trigger] dirs[i] {
            Some((_, d)) => i32::MIN < d.vx < i32::MAX && i32::MIN < d.vy < i32::MAX,
            None => true,
        }
}

impl VecStore<Dir> {
    /// Whether every stored direction can take a steering step.
    pub fn steerable(&self) -> (r: bool)
        ensures
            r == dirs_fit(self.slots()),
    {
        let mut i: usize = 0;
        while i < self.items.len()
            invariant
                i <= self.items@.len(),
                forall|j: int|
                    0 <= j < i ==> match #[trigger] self.items@[j] {
                        Some((_, d)) => i32::MIN < d.vx < i32::MAX && i32::MIN < d.vy < i32::MAX,
                        None => true,
                    },
            decreases self.items@.len() - i,
        {
            if let Some((_, d)) = &self.items[i] {
                if d.vx == i32::MIN || d.vx == i32::MAX || d.vy == i32::MIN || d.vy == i32::MAX {
                    assert(self.slots()[i as int] is Some);
                    return false;
                }
            }
            i = i + 1;
        }
        true
    }
}

/// Steers every stored direction once, each with its own random roll, on a
/// board of `width` by `height` cells.
pub fn dir_sys(dir_store: &mut VecStore<Dir>, pos_store: &VecStore<Pos>, width: u16, height: u16)
    requires
        dirs_fit(old(dir_store).slots()),
    ensures
        final(dir_store).slots().len() == old(dir_store).slots().len(),
        forall|i: int|
            0 <= i < old(dir_store).slots().len() ==> match #[trigger] old(dir_store).slots()[i] {
                Some((g, d)) => exists|r: u8|
                    r < 5 && final(dir_store).slots()[i] == Some(
                        (g, #[trigger] steered(d, r, stored(pos_store.slots(), GenData { pos: i as usize, gen: g }), width as int, height as int)),
                    ),
                None => final(dir_store).slots()[i] is None,
            },
{
    let n = dir_store.items.len();
    let mut i: usize = 0;
    while i < n
        invariant
            n == old(dir_store).slots().len(),
            n == dir_store.items@.len(),
            i <= n,
            dirs_fit(old(dir_store).slots()),
            forall|j: int| i <= j < n ==> #[trigger] dir_store.items@[j] == old(dir_store).slots()[j],
            forall|j: int|
                0 <= j < i ==> match #[trigger] old(dir_store).slots()[j] {
                    Some((g, d)) => exists|r: u8|
                        r < 5 && dir_store.items@[j] == Some(
                            (g, #[trigger] steered(d, r, stored(pos_store.slots(), GenData { pos: j as usize, gen: g }), width as int, height as int)),
                        ),
                    None => dir_store.items@[j] is None,
                },
        decreases n - i,
    {
        let entry = match &dir_store.items[i] {
            Some((g, d)) => Some((*g, Dir { vx: d.vx, vy: d.vy })),
            None => None,
        };
        if let Some((g, d)) = entry {
            let r = roll();
            let gd = GenData { pos: i, gen: g };
            let new_dir = steer(&d, r, pos_store.get(gd), width, height);
            dir_store.items.set(i, Some((g, new_dir)));
            assert(old(dir_store).slots()[i as int] is Some);
        }
        i = i + 1;
    }
}

/// Whether slots `i` and `j` hold positions that collide: both live, at
/// different slots, at the same place.
pub open spec fn collide(poss: Seq<Option<(u64, Pos)>>, i: int, j: int) -> bool {
    &&& 0 <= i < poss.len()
    &&& 0 <= j < poss.len()
    &&& i != j
    &&& poss[i] is Some
    &&& poss[j] is Some
    &&& place_of(poss[i]) == place_of(poss[j])
}

/// The position held by a slot.
pub open spec fn place_of(e: Option<(u64, Pos)>) -> Pos {
    match e {
        Some((_, p)) => p,
        None => Pos { x: 0, y: 0 },
    }
}

/// The generation held by a slot.
pub open spec fn gen_of(e: Option<(u64, Pos)>) -> u64 {
    match e {
        Some((g, _)) => g,
        None => 0,
    }
}

/// The id of the live slot `i`.
pub open spec fn id_at(poss: Seq<Option<(u64, Pos)>>, i: int) -> GenData {
    GenData { pos: i as usize, gen: gen_of(poss[i]) }
}

/// The colliding pairs `(i, j)` for `j` below `m`.
pub open spec fn row(poss: Seq<Option<(u64, Pos)>>, i: int, m: int) -> Seq<(GenData, GenData)>
    decreases m,
{
    if m <= 0 {
        Seq::empty()
    } else if collide(poss, i, m - 1) {
        row(poss, i, m - 1).push((id_at(poss, i), id_at(poss, m - 1)))
    } else {
        row(poss, i, m - 1)
    }
}

/// The colliding pairs with first slot below `m`, by first slot and then
/// second slot.
pub open spec fn collisions(poss: Seq<Option<(u64, Pos)>>, m: int) -> Seq<(GenData, GenData)>
    decreases m,
{
    if m <= 0 {
        Seq::empty()
    } else {
        collisions(poss, m - 1) + row(poss, m - 1, poss.len() as int)
    }
}

/// One collision of `a` into `b`: nothing unless `a` has a strength; then
/// `b`, if it has one, loses health by `a`'s strength, and if that leaves it
/// at zero or below while `b`'s strength plus one is positive, `a` gains
/// that much health and one strength. `None` where a sum leaves `i16`.
pub open spec fn bump(st: Seq<Option<(u64, Strength)>>, a: GenData, b: GenData) -> Option<Seq<Option<(u64, Strength)>>> {
    match stored(st, a) {
        None => Some(st),
        Some(sa) => match stored(st, b) {
            None => Some(st),
            Some(sb) => {
                let n = sb.s + 1;
                let nh = sb.h - sa.s;
                if n > i16::MAX || nh < i16::MIN || nh > i16::MAX {
                    None
                } else {
                    let st1 = st.update(b.pos as int, Some((b.gen, Strength { s: sb.s, h: nh as i16 })));
                    if nh > 0 || n <= 0 {
                        Some(st1)
                    } else {
                        match stored(st1, a) {
                            None => Some(st1),
                            Some(sa1) => if sa1.h + n > i16::MAX || sa1.s + 1 > i16::MAX {
                                None
                            } else {
                                Some(st1.update(a.pos as int, Some((a.gen, Strength { s: (sa1.s + 1) as i16, h: (sa1.h + n) as i16 }))))
                            },
                        }
                    }
                }
            },
        },
    }
}

/// The strengths after the collisions `pairs`, in order; `None` where a sum
/// leaves `i16`.
pub open spec fn bump_all(st: Seq<Option<(u64, Strength)>>, pairs: Seq<(GenData, GenData)>) -> Option<Seq<Option<(u64, Strength)>>>
    decreases pairs.len(),
{
    if pairs.len() == 0 {
        Some(st)
    } else {
        match bump_all(st, pairs.drop_last()) {
            None => None,
            Some(s1) => bump(s1, pairs.last().0, pairs.last().1),
        }
    }
}

fn find_collisions(pos_store: &VecStore<Pos>) -> (r: Vec<(GenData, GenData)>)
    ensures
        r@ == collisions(pos_store.slots(), pos_store.slots().len() as int),
{
    let ghost poss = pos_store.slots();
    let n = pos_store.items.len();
    let mut result: Vec<(GenData, GenData)> = Vec::new();
    let mut i: usize = 0;
    while i < n
        invariant
            n == poss.len(),
            poss == pos_store.slots(),
            i <= n,
            result@ == collisions(poss, i as int),
        decreases n - i,
    {
        let ghost before = result@;
        let mut j: usize = 0;
        while j < n
            invariant
                n == poss.len(),
                poss == pos_store.slots(),
                i < n,
                j <= n,
                result@ == before + row(poss, i as int, j as int),
            decreases n - j,
        {
            if let (Some((gi, pi)), Some((gj, pj))) = (&pos_store.items[i], &pos_store.items[j]) {
                let gd1 = GenData { pos: i, gen: *gi };
                let gd2 = GenData { pos: j, gen: *gj };
                if pi.x == pj.x && pi.y == pj.y && gd1 != gd2 {
                    result.push((gd1, gd2));
                }
            }
            proof {
                if collide(poss, i as int, j as int) {
                    assert(result@ =~= before + row(poss, i as int, j + 1));
                }
            }
            j = j + 1;
        }
        i = i + 1;
    }
    result
}

/// Plays out every collision between positions, outer slot first, on the
/// strengths stored under the same ids.
pub fn collision_sys(pos_store: &VecStore<Pos>, strength_store: &mut VecStore<Strength>)
    requires
        bump_all(old(strength_store).slots(), collisions(pos_store.slots(), pos_store.slots().len() as int)) is Some,
    ensures
        final(strength_store).slots() == bump_all(old(strength_store).slots(), collisions(pos_store.slots(), pos_store.slots().len() as int))->0,
{
    let collisions = find_collisions(pos_store);
    let ghost pairs = collisions@;
    let mut k: usize = 0;
    assert(pairs.take(0) =~= Seq::<(GenData, GenData)>::empty());
    while k < collisions.len()
        invariant
            pairs == collisions@,
            k <= pairs.len(),
            bump_all(old(strength_store).slots(), pairs) is Some,
            bump_all(old(strength_store).slots(), pairs.take(k as int)) == Some(strength_store.slots()),
        decreases pairs.len() - k,
    {
        let (a, b) = collisions[k];
        proof {
            assert(pairs.take(k + 1).drop_last() =~= pairs.take(k as int));
            lemma_bump_all_prefix(old(strength_store).slots(), pairs, k + 1);
        }
        let ghost st0 = strength_store.slots();
        assert(bump_all(old(strength_store).slots(), pairs.take(k + 1)) == bump(st0, a, b));
        let damage = match strength_store.get(a) {
            Some(sa) => sa.s,
            None => {
                k = k + 1;
                continue;
            },
        };
        let h_up: i16 = match strength_store.get_mut(b) {
            Some(bumpee) => {
                let n = bumpee.s + 1;
                bumpee.h = bumpee.h - damage;
                if bumpee.h <= 0 {
                    n
                } else {
                    0
                }
            },
            None => 0,
        };
        if h_up > 0 {
            match strength_store.get_mut(a) {
                Some(bumper) => {
                    bumper.h = bumper.h + h_up;
                    bumper.s = bumper.s + 1;
                },
                None => {},
            }
        }
        k = k + 1;
    }
    assert(pairs.take(k as int) =~= pairs);
}

/// A prefix of a sequence of collisions that plays out without leaving
/// `i16` does so too.
pub proof fn lemma_bump_all_prefix(st: Seq<Option<(u64, Strength)>>, pairs: Seq<(GenData, GenData)>, m: int)
    requires
        0 <= m <= pairs.len(),
        bump_all(st, pairs) is Some,
    ensures
        bump_all(st, pairs.take(m)) is Some,
    decreases pairs.len() - m,
{
    if m < pairs.len() {
        assert(pairs.take(m + 1).drop_last() =~= pairs.take(m));
        lemma_bump_all_prefix(st, pairs, m + 1);
    } else {
        assert(pairs.take(m) =~= pairs);
    }
}

} // verus!
