//! Attack sets of pieces on the 9x9 board, computed by walking offsets and rays.
use vstd::prelude::*;
use crate::bitboard::Bitboard;
use crate::color::Color;
use crate::piece::Piece;
use crate::piece_type::PieceType;
use crate::square::{Square, file_of, rank_of, index_at, on_board, in_zone};

verus! {

/// An offset (file delta, rank delta) turned to the side of `c`: Black as given, White mirrored.
pub open spec fn orient(d: (i8, i8), c: Color) -> (int, int) {
    match c {
        Color::Black => (d.0 as int, d.1 as int),
        Color::White => (-d.0, -d.1),
    }
}

/// The square reached from `from` by the offset `d`, if it is on the board.
pub open spec fn target(from: int, d: (int, int)) -> Option<int> {
    if on_board(file_of(from) + d.0, rank_of(from) + d.1) {
        Some(index_at(file_of(from) + d.0, rank_of(from) + d.1))
    } else {
        None
    }
}

/// The set holding the square of an optional target.
pub open spec fn opt_set(t: Option<int>) -> Set<int> {
    match t {
        Some(s) => set![s],
        None => Set::empty(),
    }
}

/// One-step offsets of a piece type, for Black (rank decreases toward the opponent).
pub open spec fn step_offsets(pt: PieceType) -> Seq<(i8, i8)> {
    match pt {
        PieceType::King | PieceType::ProRook | PieceType::ProBishop => seq![
            (0i8, -1i8),
            (-1i8, -1i8),
            (1i8, -1i8),
            (-1i8, 0i8),
            (1i8, 0i8),
            (-1i8, 1i8),
            (1i8, 1i8),
            (0i8, 1i8),
        ],
        PieceType::Gold | PieceType::ProSilver | PieceType::ProKnight | PieceType::ProLance
        | PieceType::ProPawn => seq![
            (0i8, -1i8),
            (-1i8, -1i8),
            (1i8, -1i8),
            (-1i8, 0i8),
            (1i8, 0i8),
            (0i8, 1i8),
        ],
        PieceType::Silver => seq![(0i8, -1i8), (-1i8, -1i8), (1i8, -1i8), (-1i8, 1i8), (1i8, 1i8)],
        PieceType::Knight => seq![(-1i8, -2i8), (1i8, -2i8)],
        PieceType::Pawn => seq![(0i8, -1i8)],
        _ => seq![],
    }
}

/// Sliding directions of a piece type, for Black.
pub open spec fn slide_dirs(pt: PieceType) -> Seq<(i8, i8)> {
    match pt {
        PieceType::Rook | PieceType::ProRook => seq![(0i8, -1i8), (0i8, 1i8), (-1i8, 0i8), (1i8, 0i8)],
        PieceType::Bishop | PieceType::ProBishop => seq![
            (-1i8, -1i8),
            (1i8, -1i8),
            (-1i8, 1i8),
            (1i8, 1i8),
        ],
        PieceType::Lance => seq![(0i8, -1i8)],
        _ => seq![],
    }
}

/// Squares reached from `from` by the first `k` offsets of `offs`, turned to `c`.
pub open spec fn step_targets(from: int, offs: Seq<(i8, i8)>, c: Color, k: int) -> Set<int>
    decreases k,
{
    if k <= 0 {
        Set::empty()
    } else {
        step_targets(from, offs, c, k - 1).union(opt_set(target(from, orient(offs[k - 1], c))))
    }
}

/// Squares along direction `d` from `from` (exclusive), up to and including the first
/// occupied square, walking at most `fuel` steps.
pub open spec fn ray(from: int, d: (int, int), occ: Set<int>, fuel: nat) -> Set<int>
    decreases fuel,
{
    if fuel == 0 {
        Set::empty()
    } else {
        match target(from, d) {
            None => Set::empty(),
            Some(n) => if occ.contains(n) {
                set![n]
            } else {
                ray(n, d, occ, (fuel - 1) as nat).insert(n)
            },
        }
    }
}

/// Union of the rays along the first `k` directions of `dirs`, turned to `c`.
pub open spec fn slide_targets(from: int, dirs: Seq<(i8, i8)>, c: Color, occ: Set<int>, k: int) -> Set<int>
    decreases k,
{
    if k <= 0 {
        Set::empty()
    } else {
        slide_targets(from, dirs, c, occ, k - 1).union(ray(from, orient(dirs[k - 1], c), occ, 8))
    }
}

/// The squares that piece `p` standing on `from` attacks, given the occupied squares `occ`.
pub open spec fn attack_set(p: Piece, from: int, occ: Set<int>) -> Set<int> {
    let steps = step_offsets(p.piece_type);
    let dirs = slide_dirs(p.piece_type);
    step_targets(from, steps, p.color, steps.len() as int).union(
        slide_targets(from, dirs, p.color, occ, dirs.len() as int),
    )
}

/// The promotion zone of color `c`.
pub open spec fn zone_set(c: Color) -> Set<int> {
    Set::new(|i: int| 0 <= i < 81 && in_zone(i, c))
}

/// The squares strictly between `from` and `to` along direction `d`, if walking from `from`
/// along `d` reaches `to` within `fuel` steps.
pub open spec fn between_dir(from: int, to: int, d: (int, int), fuel: nat) -> Option<Set<int>>
    decreases fuel,
{
    if fuel == 0 {
        None
    } else {
        match target(from, d) {
            None => None,
            Some(n) => if n == to {
                Some(Set::empty())
            } else {
                match between_dir(n, to, d, (fuel - 1) as nat) {
                    Some(s) => Some(s.insert(n)),
                    None => None,
                }
            },
        }
    }
}

/// The eight directions, in the order in which lines are looked for.
pub open spec fn all_dirs() -> Seq<(i8, i8)> {
    seq![(0i8, -1i8), (0i8, 1i8), (-1i8, 0i8), (1i8, 0i8), (-1i8, -1i8), (1i8, -1i8), (-1i8, 1i8), (1i8, 1i8)]
}

/// The squares strictly between `a` and `b`, looking at directions `k..8` of `all_dirs`.
pub open spec fn between_from(a: int, b: int, k: int) -> Set<int>
    decreases 8 - k,
{
    if k >= 8 || k < 0 {
        Set::empty()
    } else {
        match between_dir(a, b, orient(all_dirs()[k], Color::Black), 8) {
            Some(s) => s,
            None => between_from(a, b, k + 1),
        }
    }
}

/// The squares strictly between two squares on a common line (empty if not on a line).
pub open spec fn between_set(a: int, b: int) -> Set<int> {
    between_from(a, b, 0)
}

/// Offsets of a piece type as an exec vector.
fn step_offsets_exec(pt: PieceType) -> (r: Vec<(i8, i8)>)
    ensures
        r@ == step_offsets(pt),
{
    let r = match pt {
        PieceType::King | PieceType::ProRook | PieceType::ProBishop => vec![
            (0i8, -1i8),
            (-1i8, -1i8),
            (1i8, -1i8),
            (-1i8, 0i8),
            (1i8, 0i8),
            (-1i8, 1i8),
            (1i8, 1i8),
            (0i8, 1i8),
        ],
        PieceType::Gold | PieceType::ProSilver | PieceType::ProKnight | PieceType::ProLance
        | PieceType::ProPawn => vec![
            (0i8, -1i8),
            (-1i8, -1i8),
            (1i8, -1i8),
            (-1i8, 0i8),
            (1i8, 0i8),
            (0i8, 1i8),
        ],
        PieceType::Silver => vec![(0i8, -1i8), (-1i8, -1i8), (1i8, -1i8), (-1i8, 1i8), (1i8, 1i8)],
        PieceType::Knight => vec![(-1i8, -2i8), (1i8, -2i8)],
        PieceType::Pawn => vec![(0i8, -1i8)],
        _ => vec![],
    };
    proof {
        assert(r@ =~= step_offsets(pt));
    }
    r
}

/// Sliding directions of a piece type as an exec vector.
fn slide_dirs_exec(pt: PieceType) -> (r: Vec<(i8, i8)>)
    ensures
        r@ == slide_dirs(pt),
{
    let r = match pt {
        PieceType::Rook | PieceType::ProRook => vec![(0i8, -1i8), (0i8, 1i8), (-1i8, 0i8), (1i8, 0i8)],
        PieceType::Bishop | PieceType::ProBishop => vec![
            (-1i8, -1i8),
            (1i8, -1i8),
            (-1i8, 1i8),
            (1i8, 1i8),
        ],
        PieceType::Lance => vec![(0i8, -1i8)],
        _ => vec![],
    };
    proof {
        assert(r@ =~= slide_dirs(pt));
    }
    r
}

/// Turns an offset to the side of `c`.
fn orient_exec(d: (i8, i8), c: Color) -> (r: (i8, i8))
    requires
        -2 <= d.0 <= 2,
        -2 <= d.1 <= 2,
    ensures
        (r.0 as int, r.1 as int) == orient(d, c),
{
    match c {
        Color::Black => d,
        Color::White => (-d.0, -d.1),
    }
}

/// The square reached by an offset, if on the board.
fn step(from: Square, d: (i8, i8)) -> (r: Option<Square>)
    ensures
        target(from.idx(), (d.0 as int, d.1 as int)) == (match r {
            Some(s) => Some(s.idx()),
            None => None,
        }),
{
    from.shift(d.0, d.1)
}

/// Squares reached in one step by a piece of type `pt` and color `c` from `sq`.
pub fn attacks_from(pt: PieceType, c: Color, sq: Square) -> (r: Bitboard)
    ensures
        r@ == step_targets(sq.idx(), step_offsets(pt), c, step_offsets(pt).len() as int),
{
    let offs = step_offsets_exec(pt);
    let mut bb = Bitboard::empty();
    let mut k: usize = 0;
    while k < offs.len()
        invariant
            k <= offs.len(),
            offs@ == step_offsets(pt),
            bb@ == step_targets(sq.idx(), offs@, c, k as int),
        decreases offs.len() - k,
    {
        let d = orient_exec(offs[k], c);
        match step(sq, d) {
            Some(t) => {
                bb.set(t);
            },
            None => {},
        }
        k = k + 1;
        proof {
            assert(bb@ =~= step_targets(sq.idx(), offs@, c, k as int));
        }
    }
    bb
}

/// Squares along a direction from `sq` up to and including the first occupied square.
pub fn ray_attack(sq: Square, d: (i8, i8), occupied: &Bitboard) -> (r: Bitboard)
    ensures
        r@ == ray(sq.idx(), (d.0 as int, d.1 as int), occupied@, 8),
{
    let mut bb = Bitboard::empty();
    let mut cur = sq;
    let mut fuel: u32 = 8;
    let ghost dd = (d.0 as int, d.1 as int);
    while fuel > 0
        invariant
            fuel <= 8,
            bb@.union(ray(cur.idx(), dd, occupied@, fuel as nat)) == ray(sq.idx(), dd, occupied@, 8),
            dd == (d.0 as int, d.1 as int),
        decreases fuel,
    {
        match step(cur, d) {
            None => {
                proof {
                    assert(ray(cur.idx(), dd, occupied@, fuel as nat) == Set::<int>::empty());
                    assert(bb@ =~= bb@.union(Set::<int>::empty()));
                }
                return bb;
            },
            Some(n) => {
                let ghost old_bb = bb@;
                let ghost old_cur = cur;
                let ghost old_fuel = fuel;
                bb.set(n);
                if occupied.contains(n) {
                    proof {
                        assert(ray(old_cur.idx(), dd, occupied@, old_fuel as nat) == set![n.idx()]);
                        assert(bb@ =~= old_bb.union(set![n.idx()]));
                    }
                    return bb;
                }
                cur = n;
                fuel = fuel - 1;
                proof {
                    assert(ray(old_cur.idx(), dd, occupied@, old_fuel as nat) == ray(
                        n.idx(),
                        dd,
                        occupied@,
                        fuel as nat,
                    ).insert(n.idx()));
                    assert(bb@.union(ray(cur.idx(), dd, occupied@, fuel as nat)) =~= old_bb.union(
                        ray(old_cur.idx(), dd, occupied@, old_fuel as nat),
                    ));
                }
            },
        }
    }
    proof {
        assert(bb@ =~= bb@.union(Set::<int>::empty()));
    }
    bb
}

/// Union of the rays of a piece type's sliding directions.
fn slide_attack(pt: PieceType, c: Color, sq: Square, occupied: &Bitboard) -> (r: Bitboard)
    ensures
        r@ == slide_targets(sq.idx(), slide_dirs(pt), c, occupied@, slide_dirs(pt).len() as int),
{
    let dirs = slide_dirs_exec(pt);
    let mut bb = Bitboard::empty();
    let mut k: usize = 0;
    while k < dirs.len()
        invariant
            k <= dirs.len(),
            dirs@ == slide_dirs(pt),
            bb@ == slide_targets(sq.idx(), dirs@, c, occupied@, k as int),
        decreases dirs.len() - k,
    {
        let d = orient_exec(dirs[k], c);
        let r = ray_attack(sq, d, occupied);
        bb = bb.or(&r);
        k = k + 1;
    }
    bb
}

/// Squares attacked by a rook on `sq`.
pub fn rook_attack(sq: Square, occupied: &Bitboard) -> (r: Bitboard)
    ensures
        r@ == attack_set(Piece { piece_type: PieceType::Rook, color: Color::Black }, sq.idx(), occupied@),
{
    let r = slide_attack(PieceType::Rook, Color::Black, sq, occupied);
    proof {
        assert(r@ =~= attack_set(Piece { piece_type: PieceType::Rook, color: Color::Black }, sq.idx(), occupied@));
    }
    r
}

/// Squares attacked by a bishop on `sq`.
pub fn bishop_attack(sq: Square, occupied: &Bitboard) -> (r: Bitboard)
    ensures
        r@ == attack_set(Piece { piece_type: PieceType::Bishop, color: Color::Black }, sq.idx(), occupied@),
{
    let r = slide_attack(PieceType::Bishop, Color::Black, sq, occupied);
    proof {
        assert(r@ =~= attack_set(Piece { piece_type: PieceType::Bishop, color: Color::Black }, sq.idx(), occupied@));
    }
    r
}

/// Squares attacked by a lance of color `c` on `sq`.
pub fn lance_attack(c: Color, sq: Square, occupied: &Bitboard) -> (r: Bitboard)
    ensures
        r@ == attack_set(Piece { piece_type: PieceType::Lance, color: c }, sq.idx(), occupied@),
{
    let r = slide_attack(PieceType::Lance, c, sq, occupied);
    proof {
        assert(r@ =~= attack_set(Piece { piece_type: PieceType::Lance, color: c }, sq.idx(), occupied@));
    }
    r
}

/// Squares attacked by piece `p` on `sq`, given the occupied squares.
pub fn piece_attack(p: Piece, sq: Square, occupied: &Bitboard) -> (r: Bitboard)
    ensures
        r@ == attack_set(p, sq.idx(), occupied@),
{
    let steps = attacks_from(p.piece_type, p.color, sq);
    let slides = slide_attack(p.piece_type, p.color, sq, occupied);
    steps.or(&slides)
}

/// The promotion zone of the given color.
pub fn promote_zone(c: Color) -> (r: Bitboard)
    ensures
        r@ == zone_set(c),
{
    let mut bb = Bitboard::empty();
    let mut i: u8 = 0;
    while i < 81
        invariant
            i <= 81,
            bb@ == Set::new(|j: int| 0 <= j < i && in_zone(j, c)),
        decreases 81 - i,
    {
        let sq = Square::from_index(i).unwrap();
        if sq.in_promotion_zone(c) {
            bb.set(sq);
        }
        i = i + 1;
        proof {
            assert(bb@ =~= Set::new(|j: int| 0 <= j < i && in_zone(j, c)));
        }
    }
    proof {
        assert(bb@ =~= zone_set(c));
    }
    bb
}

/// Squares strictly between `from` and `to` along `d`, if `to` lies that way.
fn between_along(from: Square, to: Square, d: (i8, i8)) -> (r: Option<Bitboard>)
    ensures
        match between_dir(from.idx(), to.idx(), (d.0 as int, d.1 as int), 8) {
            Some(s) => r matches Some(b) && b@ == s,
            None => r is None,
        },
{
    let mut bb = Bitboard::empty();
    let mut cur = from;
    let mut fuel: u32 = 8;
    let ghost dd = (d.0 as int, d.1 as int);
    while fuel > 0
        invariant
            fuel <= 8,
            dd == (d.0 as int, d.1 as int),
            match between_dir(from.idx(), to.idx(), dd, 8) {
                Some(s) => between_dir(cur.idx(), to.idx(), dd, fuel as nat) matches Some(t)
                    && s == bb@.union(t),
                None => between_dir(cur.idx(), to.idx(), dd, fuel as nat) is None,
            },
        decreases fuel,
    {
        match step(cur, d) {
            None => {
                return None;
            },
            Some(n) => {
                proof {
                    to.lemma_idx_bound();
                    n.lemma_idx_bound();
                }
                if n.index() == to.index() {
                    proof {
                        assert(bb@ =~= bb@.union(Set::<int>::empty()));
                    }
                    return Some(bb);
                }
                let ghost old_bb = bb@;
                let ghost old_cur = cur;
                let ghost old_fuel = fuel;
                bb.set(n);
                cur = n;
                fuel = fuel - 1;
                proof {
                    match between_dir(cur.idx(), to.idx(), dd, fuel as nat) {
                        Some(t) => {
                            assert(bb@.union(t) =~= old_bb.union(t.insert(n.idx())));
                        },
                        None => {},
                    }
                }
            },
        }
    }
    None
}

/// The squares strictly between two squares on a common line (empty if not on a line).
pub fn between(a: Square, b: Square) -> (r: Bitboard)
    ensures
        r@ == between_set(a.idx(), b.idx()),
{
    let dirs: [(i8, i8); 8] = [(0i8, -1i8), (0i8, 1i8), (-1i8, 0i8), (1i8, 0i8), (-1i8, -1i8), (1i8, -1i8), (-1i8, 1i8), (1i8, 1i8)];
    proof {
        assert(dirs@ =~= all_dirs());
    }
    let mut k: usize = 0;
    while k < 8
        invariant
            k <= 8,
            dirs@ == all_dirs(),
            between_set(a.idx(), b.idx()) == between_from(a.idx(), b.idx(), k as int),
        decreases 8 - k,
    {
        let d = dirs[k];
        match between_along(a, b, d) {
            Some(bb) => {
                return bb;
            },
            None => {},
        }
        k = k + 1;
    }
    Bitboard::empty()
}


/// Whether `t` is one of the (up to eight) squares next to `s`, in any direction.
pub open spec fn adjacent(s: int, t: int) -> bool {
    &&& 0 <= t < 81
    &&& t != s
    &&& -1 <= file_of(t) - file_of(s) <= 1
    &&& -1 <= rank_of(t) - rank_of(s) <= 1
}

/// The squares reached by the first `k` offsets are the targets of those offsets.
proof fn lemma_step_targets_contains(from: int, offs: Seq<(i8, i8)>, c: Color, k: int, t: int)
    ensures
        step_targets(from, offs, c, k).contains(t) <==> exists|j: int|
            0 <= j < k && #[trigger] target(from, orient(offs[j], c)) == Some(t),
    decreases k,
{
    if k > 0 {
        lemma_step_targets_contains(from, offs, c, k - 1, t);
        if target(from, orient(offs[k - 1], c)) == Some(t) {
            assert(step_targets(from, offs, c, k).contains(t));
        }
        if step_targets(from, offs, c, k).contains(t) && !step_targets(from, offs, c, k - 1).contains(t) {
            assert(target(from, orient(offs[k - 1], c)) == Some(t));
        }
    }
}

/// A step of at most one file and one rank, not both zero, lands next to the square.
proof fn lemma_unit_step(s: int, d: (int, int))
    requires
        0 <= s < 81,
        -1 <= d.0 <= 1,
        -1 <= d.1 <= 1,
        d != (0int, 0int),
    ensures
        target(s, d) matches Some(t) ==> adjacent(s, t),
{
    if let Some(t) = target(s, d) {
        let f = file_of(s) + d.0;
        let r = rank_of(s) + d.1;
        assert(t == f * 9 + r);
        assert(file_of(t) == f && rank_of(t) == r);
    }
}

/// A square next to `s` is the target of the step between them.
proof fn lemma_adjacent_step(s: int, t: int)
    requires
        0 <= s < 81,
        adjacent(s, t),
    ensures
        target(s, (file_of(t) - file_of(s), rank_of(t) - rank_of(s))) == Some(t),
        (file_of(t) - file_of(s), rank_of(t) - rank_of(s)) != (0int, 0int),
{
    assert(t == file_of(t) * 9 + rank_of(t));
    assert(s == file_of(s) * 9 + rank_of(s));
}

/// The eight king offsets, turned to either side, are the eight unit steps.
proof fn lemma_king_offsets(c: Color, d: (int, int))
    ensures
        (exists|j: int| 0 <= j < 8 && #[trigger] orient(step_offsets(PieceType::King)[j], c) == d) <==> (-1 <= d.0 <= 1
            && -1 <= d.1 <= 1 && d != (0int, 0int)),
{
    let offs = step_offsets(PieceType::King);
    assert(offs.len() == 8);
    if -1 <= d.0 <= 1 && -1 <= d.1 <= 1 && d != (0int, 0int) {
        let e: (int, int) = match c {
            Color::Black => d,
            Color::White => (-d.0, -d.1),
        };
        let j: int = if e == (0int, -1int) {
            0
        } else if e == (-1int, -1int) {
            1
        } else if e == (1int, -1int) {
            2
        } else if e == (-1int, 0int) {
            3
        } else if e == (1int, 0int) {
            4
        } else if e == (-1int, 1int) {
            5
        } else if e == (1int, 1int) {
            6
        } else {
            7
        };
        assert(orient(offs[j], c) == d);
    }
    assert forall|j: int| 0 <= j < 8 implies {
        let o = #[trigger] orient(offs[j], c);
        -1 <= o.0 <= 1 && -1 <= o.1 <= 1 && o != (0int, 0int)
    } by {}
}

/// A king, of either color, attacks exactly the squares next to its own, whatever the
/// occupancy.
pub proof fn lemma_king_attacks(c: Color, s: int, occ: Set<int>)
    requires
        0 <= s < 81,
    ensures
        attack_set(Piece { piece_type: PieceType::King, color: c }, s, occ) == Set::new(|t: int| adjacent(s, t)),
{
    let p = Piece { piece_type: PieceType::King, color: c };
    let offs = step_offsets(PieceType::King);
    reveal_with_fuel(slide_targets, 1);
    assert(slide_targets(s, slide_dirs(PieceType::King), c, occ, 0) =~= Set::empty());
    let st = step_targets(s, offs, c, 8);
    assert forall|t: int| st.contains(t) <==> adjacent(s, t) by {
        lemma_step_targets_contains(s, offs, c, 8, t);
        if st.contains(t) {
            let j = choose|j: int| 0 <= j < 8 && #[trigger] target(s, orient(offs[j], c)) == Some(t);
            lemma_king_offsets(c, orient(offs[j], c));
            lemma_unit_step(s, orient(offs[j], c));
        }
        if adjacent(s, t) {
            let d = (file_of(t) - file_of(s), rank_of(t) - rank_of(s));
            lemma_adjacent_step(s, t);
            lemma_king_offsets(c, d);
            let j = choose|j: int| 0 <= j < 8 && #[trigger] orient(offs[j], c) == d;
            assert(target(s, orient(offs[j], c)) == Some(t));
        }
    }
    assert(attack_set(p, s, occ) =~= Set::new(|t: int| adjacent(s, t)));
}


/// A ray stops no later when more squares are occupied.
proof fn lemma_ray_mono(from: int, d: (int, int), o1: Set<int>, o2: Set<int>, fuel: nat)
    requires
        o1.subset_of(o2),
    ensures
        ray(from, d, o2, fuel).subset_of(ray(from, d, o1, fuel)),
    decreases fuel,
{
    if fuel > 0 {
        if let Some(n) = target(from, d) {
            if !o2.contains(n) {
                lemma_ray_mono(n, d, o1, o2, (fuel - 1) as nat);
            }
        }
    }
}

/// Sliding targets shrink when more squares are occupied.
proof fn lemma_slide_mono(from: int, dirs: Seq<(i8, i8)>, c: Color, o1: Set<int>, o2: Set<int>, k: int)
    requires
        o1.subset_of(o2),
    ensures
        slide_targets(from, dirs, c, o2, k).subset_of(slide_targets(from, dirs, c, o1, k)),
    decreases k,
{
    if k > 0 {
        lemma_slide_mono(from, dirs, c, o1, o2, k - 1);
        lemma_ray_mono(from, orient(dirs[k - 1], c), o1, o2, 8);
    }
}

/// A piece attacks no more squares when more squares are occupied; a piece that does not
/// slide attacks the same squares whatever the occupancy.
pub proof fn lemma_attack_set_mono(p: Piece, from: int, o1: Set<int>, o2: Set<int>)
    requires
        o1.subset_of(o2),
    ensures
        attack_set(p, from, o2).subset_of(attack_set(p, from, o1)),
        slide_dirs(p.piece_type).len() == 0 ==> attack_set(p, from, o2) == attack_set(p, from, o1),
{
    let dirs = slide_dirs(p.piece_type);
    lemma_slide_mono(from, dirs, p.color, o1, o2, dirs.len() as int);
    if dirs.len() == 0 {
        assert(attack_set(p, from, o2) =~= attack_set(p, from, o1));
    }
}

} // verus!
