use vstd::prelude::*;

use crate::error::InvalidGeometry;

verus! {

/// A point in tile-local pixel coordinates.
pub type TileCoord = (i32, i32);

/// One absolute-space drawing instruction, before delta encoding.
#[derive(Debug, PartialEq, Eq, Clone, Copy)]
pub enum Command {
    MoveTo(TileCoord),
    LineTo(TileCoord),
    ClosePath,
}

/// Zigzag encoding of a delta component: a bijection from signed to unsigned
/// 32-bit integers that keeps small magnitudes numerically small.
pub open spec fn zigzag(n: i32) -> u32 {
    if n >= 0 {
        (2 * n) as u32
    } else {
        (-2 * (n as int) - 1) as u32
    }
}

/// The inverse of [`zigzag`].
pub open spec fn unzigzag(u: u32) -> i32 {
    if u % 2 == 0 {
        (u / 2) as i32
    } else {
        (-(((u as int) + 1) / 2)) as i32
    }
}

/// Zigzag-decoding inverts zigzag-encoding on every signed 32-bit value.
pub proof fn lemma_zigzag_roundtrip(n: i32)
    ensures
        unzigzag(zigzag(n)) == n,
{
    if n >= 0 {
        assert(unzigzag(zigzag(n)) == n) by (nonlinear_arith);
    } else {
        assert(unzigzag(zigzag(n)) == n) by (nonlinear_arith);
    }
}

/// Zigzag-encoding inverts zigzag-decoding on every unsigned 32-bit value, so
/// the two maps form a bijection.
pub proof fn lemma_unzigzag_roundtrip(u: u32)
    ensures
        zigzag(unzigzag(u)) == u,
{
    assert(zigzag(unzigzag(u)) == u) by (nonlinear_arith);
}

/// Encodes one delta component as one parameter word.
pub fn encode_param(param: i32) -> (r: u32)
    ensures
        r == zigzag(param),
{
    let r = #[verifier::truncate] (((param << 1) ^ (param >> 31)) as u32);
    proof {
        assert((((param << 1) ^ (param >> 31)) as u32) == zigzag(param)) by (bit_vector);
    }
    r
}

/// The command identifier a command carries in its command word.
pub open spec fn cmd_id(c: Command) -> u32 {
    match c {
        Command::MoveTo(_) => 1,
        Command::LineTo(_) => 2,
        Command::ClosePath => 7,
    }
}

/// The coordinate a cursor-moving command targets.
pub open spec fn target(c: Command) -> TileCoord
    recommends
        !(c is ClosePath),
{
    match c {
        Command::MoveTo(p) => p,
        Command::LineTo(p) => p,
        Command::ClosePath => (0, 0),
    }
}

/// Whether two commands belong to the same run: both move or both draw.
/// A close-path command never joins a run.
pub open spec fn same_kind(a: Command, b: Command) -> bool {
    (a is MoveTo && b is MoveTo) || (a is LineTo && b is LineTo)
}

/// The command word whose low 3 bits hold the command identifier and whose
/// remaining 29 bits hold the run length.
pub open spec fn cmd_word(id: u32, count: int) -> u32
    recommends
        id <= 7,
        0 <= count < 0x2000_0000,
{
    (id + 8 * count) as u32
}

/// The length of the leading run of same-kind commands.
pub open spec fn run_len(cmds: Seq<Command>) -> int
    decreases cmds.len(),
{
    if cmds.len() == 0 {
        0
    } else if cmds.len() >= 2 && same_kind(cmds[0], cmds[1]) {
        1 + run_len(cmds.drop_first())
    } else {
        1
    }
}

pub proof fn lemma_run_len_bounds(cmds: Seq<Command>)
    ensures
        cmds.len() == 0 ==> run_len(cmds) == 0,
        cmds.len() > 0 ==> 1 <= run_len(cmds) <= cmds.len(),
    decreases cmds.len(),
{
    if cmds.len() >= 2 && same_kind(cmds[0], cmds[1]) {
        lemma_run_len_bounds(cmds.drop_first());
    }
}

/// `run_len` is pinned down by the run's two defining facts: every command up
/// to the run's end continues the first command's kind, and the command after
/// the run (if any) does not.
pub proof fn lemma_run_len_is(cmds: Seq<Command>, n: int)
    requires
        1 <= n <= cmds.len(),
        forall|k: int| 1 <= k < n ==> same_kind(cmds[0], #[trigger] cmds[k]),
        n < cmds.len() ==> !same_kind(cmds[0], cmds[n]),
    ensures
        run_len(cmds) == n,
    decreases n,
{
    if cmds.len() >= 2 && same_kind(cmds[0], cmds[1]) {
        assert(n >= 2);
        let rest = cmds.drop_first();
        assert forall|k: int| 1 <= k < n - 1 implies same_kind(rest[0], #[trigger] rest[k]) by {
            assert(rest[k] == cmds[k + 1]);
            assert(same_kind(cmds[0], cmds[k + 1]));
        }
        assert(n - 1 < rest.len() ==> !same_kind(rest[0], rest[n - 1]));
        lemma_run_len_is(rest, n - 1);
    } else {
        if n >= 2 {
            assert(same_kind(cmds[0], cmds[1]));
        }
    }
}

/// The delta between two cursor positions, component-wise and wrapping.
pub open spec fn delta(from: TileCoord, to: TileCoord) -> TileCoord {
    (
        vstd::wrapping::i32_specs::wrapping_sub(to.0, from.0),
        vstd::wrapping::i32_specs::wrapping_sub(to.1, from.1),
    )
}

/// The zigzag-encoded delta parameters of a run of cursor-moving commands,
/// starting from cursor position `cur`.
pub open spec fn params_of(run: Seq<Command>, cur: TileCoord) -> Seq<u32>
    decreases run.len(),
{
    if run.len() == 0 {
        Seq::empty()
    } else {
        let p = target(run[0]);
        let d = delta(cur, p);
        seq![zigzag(d.0), zigzag(d.1)] + params_of(run.drop_first(), p)
    }
}

/// Where the cursor stands after a run of cursor-moving commands.
pub open spec fn cursor_after(run: Seq<Command>, cur: TileCoord) -> TileCoord {
    if run.len() == 0 {
        cur
    } else {
        target(run.last())
    }
}

/// The encoded command stream: maximal runs of same-kind cursor-moving
/// commands become one command word followed by their zigzag-encoded delta
/// parameters; each close-path command becomes one parameterless command word
/// with run length one.
pub open spec fn encode_stream(cmds: Seq<Command>, cur: TileCoord) -> Seq<u32>
    decreases cmds.len(),
    via encode_stream_decreases
{
    if cmds.len() == 0 {
        Seq::empty()
    } else if cmds[0] is ClosePath {
        seq![cmd_word(7, 1)] + encode_stream(cmds.drop_first(), cur)
    } else {
        let n = run_len(cmds);
        let run = cmds.take(n);
        seq![cmd_word(cmd_id(cmds[0]), n)] + params_of(run, cur) + encode_stream(
            cmds.skip(n),
            cursor_after(run, cur),
        )
    }
}

#[via_fn]
proof fn encode_stream_decreases(cmds: Seq<Command>, cur: TileCoord) {
    lemma_run_len_bounds(cmds);
}

/// Packs a command identifier and a run length into one command word.
pub fn encode_command(command: &Command, count: u32) -> (r: u32)
    requires
        count < 0x2000_0000,
    ensures
        r == cmd_word(cmd_id(*command), count as int),
{
    let id: u32 = match command {
        Command::MoveTo(_) => 1,
        Command::LineTo(_) => 2,
        Command::ClosePath => 7,
    };
    let r = (id & 0x7) | (count << 3);
    proof {
        assert((id & 0x7) | (count << 3) == (id + 8 * count) as u32) by (bit_vector)
            requires
                id <= 7 && count < 0x2000_0000,
        ;
    }
    r
}

/// The wrapping delta from one cursor position to another.
pub fn diff_to(from: &TileCoord, to: &TileCoord) -> (r: TileCoord)
    ensures
        r == delta(*from, *to),
{
    (to.0.wrapping_sub(from.0), to.1.wrapping_sub(from.1))
}

fn is_close(c: &Command) -> (r: bool)
    ensures
        r == (*c is ClosePath),
{
    match c {
        Command::ClosePath => true,
        Command::MoveTo(_) => false,
        Command::LineTo(_) => false,
    }
}

fn is_same_kind(a: &Command, b: &Command) -> (r: bool)
    ensures
        r == same_kind(*a, *b),
{
    match a {
        Command::MoveTo(_) => match b {
            Command::MoveTo(_) => true,
            _ => false,
        },
        Command::LineTo(_) => match b {
            Command::LineTo(_) => true,
            _ => false,
        },
        Command::ClosePath => false,
    }
}

fn target_of(c: &Command) -> (r: TileCoord)
    requires
        !(*c is ClosePath),
    ensures
        r == target(*c),
{
    match c {
        Command::MoveTo(p) => *p,
        Command::LineTo(p) => *p,
        Command::ClosePath => (0, 0),
    }
}

/// Encodes a command sequence into the compact command stream, grouping
/// maximal runs of same-kind commands under one command word and
/// delta-and-zigzag-encoding every coordinate against a cursor that starts
/// at the tile origin.
///
/// The run length of a command word lives in the word's upper 29 bits, so the
/// stream can only hold runs shorter than `0x2000_0000`.
pub fn encode_geometry(commands: &[Command]) -> (r: Vec<u32>)
    requires
        commands@.len() < 0x2000_0000,
    ensures
        r@ == encode_stream(commands@, (0, 0)),
{
    let ghost full = commands@;
    let mut encoded: Vec<u32> = Vec::new();
    let mut cursor: TileCoord = (0, 0);
    let mut i: usize = 0;
    proof {
        assert(full.skip(0) =~= full);
    }
    while i < commands.len()
        invariant
            0 <= i <= full.len(),
            full.len() < 0x2000_0000,
            commands@ == full,
            encode_stream(full, (0, 0)) == encoded@ + encode_stream(full.skip(i as int), cursor),
        decreases full.len() - i,
    {
        let cmd = commands[i];
        let ghost rest = full.skip(i as int);
        if is_close(&cmd) {
            proof {
                assert(rest[0] == full[i as int]);
                assert(rest.drop_first() =~= full.skip(i as int + 1));
                assert(encode_stream(rest, cursor) == seq![cmd_word(7, 1)] + encode_stream(
                    full.skip(i as int + 1),
                    cursor,
                ));
            }
            encoded.push(encode_command(&cmd, 1));
            i = i + 1;
        } else {
            // Scan to the end of the maximal run that starts at `i`.
            let mut j: usize = i + 1;
            while j < commands.len() && is_same_kind(&cmd, &commands[j])
                invariant
                    i < j <= full.len(),
                    commands@ == full,
                    cmd == full[i as int],
                    forall|k: int| i < k < j ==> same_kind(full[i as int], #[trigger] full[k]),
                decreases full.len() - j,
            {
                j = j + 1;
            }
            let ghost n = j - i;
            proof {
                assert forall|k: int| 1 <= k < n implies same_kind(rest[0], #[trigger] rest[k]) by {
                    assert(rest[k] == full[i + k]);
                }
                assert(n < rest.len() ==> !same_kind(rest[0], rest[n]));
                lemma_run_len_is(rest, n);
            }
            let ghost run = rest.take(n);
            let ghost cur0 = cursor;
            proof {
                assert(rest.skip(n) =~= full.skip(j as int));
                assert(encode_stream(rest, cursor) == seq![cmd_word(cmd_id(cmd), n)] + params_of(
                    run,
                    cur0,
                ) + encode_stream(full.skip(j as int), cursor_after(run, cur0)));
            }
            let ghost enc0 = encoded@;
            let ghost word = cmd_word(cmd_id(cmd), n);
            let ghost tail = encode_stream(full.skip(j as int), cursor_after(run, cur0));
            encoded.push(encode_command(&cmd, (j - i) as u32));
            proof {
                assert(encoded@ =~= enc0 + seq![word]);
                assert(run.skip(0) =~= run);
                assert(enc0 + (seq![word] + params_of(run, cur0) + tail) =~= (enc0 + seq![word])
                    + params_of(run, cur0) + tail);
            }
            let mut k: usize = i;
            while k < j
                invariant
                    i <= k <= j <= full.len(),
                    commands@ == full,
                    run == full.skip(i as int).take(j - i),
                    run.len() == j - i,
                    forall|m: int| 0 <= m < run.len() ==> !(#[trigger] run[m] is ClosePath),
                    cursor == if k == i {
                        cur0
                    } else {
                        target(run[k - i - 1])
                    },
                    encode_stream(full, (0, 0)) == encoded@ + params_of(run.skip(k - i), cursor)
                        + encode_stream(full.skip(j as int), cursor_after(run, cur0)),
                decreases j - k,
            {
                let p = target_of(&commands[k]);
                proof {
                    let m = k - i;
                    assert(run[m] == full[k as int]);
                    assert(run.skip(m)[0] == run[m]);
                    assert(run.skip(m).drop_first() =~= run.skip(m + 1));
                    assert(params_of(run.skip(m), cursor) == seq![
                        zigzag(delta(cursor, p).0),
                        zigzag(delta(cursor, p).1),
                    ] + params_of(run.skip(m + 1), p));
                }
                let d = diff_to(&cursor, &p);
                encoded.push(encode_param(d.0));
                encoded.push(encode_param(d.1));
                cursor = p;
                k = k + 1;
            }
            proof {
                assert(run.skip(run.len() as int) =~= Seq::<Command>::empty());
                assert(cursor == cursor_after(run, cur0));
            }
            i = j;
        }
    }
    proof {
        assert(full.skip(full.len() as int) =~= Seq::<Command>::empty());
    }
    encoded
}

/// The cross term of the shoelace formula for one pair of vertices.
pub open spec fn cross(a: TileCoord, b: TileCoord) -> int {
    a.0 * b.1 - b.0 * a.1
}

/// The sum of the first `k` cross terms of a ring's shoelace formula.
pub open spec fn shoelace(ring: Seq<TileCoord>, k: int) -> int
    decreases k,
{
    if k <= 0 {
        0
    } else {
        shoelace(ring, k - 1) + cross(ring[k - 1], ring[k])
    }
}

/// Twice the signed area of a ring by the shoelace formula, implicitly
/// closing the ring from its last vertex back to its first.
pub open spec fn signed_area(ring: Seq<TileCoord>) -> int {
    if ring.len() == 0 {
        0
    } else {
        shoelace(ring, ring.len() - 1) + cross(ring.last(), ring[0])
    }
}

fn cross_of(a: TileCoord, b: TileCoord) -> (r: i128)
    ensures
        r == cross(a, b),
        -0x8000_0000_0000_0000 <= r <= 0x8000_0000_0000_0000,
{
    proof {
        assert((a.0 as int) * (b.1 as int) <= 0x4000_0000_0000_0000 && (a.0 as int) * (
        b.1 as int) >= -0x4000_0000_0000_0000 && (b.0 as int) * (a.1 as int)
            <= 0x4000_0000_0000_0000 && (b.0 as int) * (a.1 as int) >= -0x4000_0000_0000_0000)
            by (nonlinear_arith)
            requires
                -0x8000_0000 <= a.0 <= 0x7fff_ffff,
                -0x8000_0000 <= a.1 <= 0x7fff_ffff,
                -0x8000_0000 <= b.0 <= 0x7fff_ffff,
                -0x8000_0000 <= b.1 <= 0x7fff_ffff,
        ;
    }
    (a.0 as i128) * (b.1 as i128) - (b.0 as i128) * (a.1 as i128)
}

/// The drawing commands of an open path: move to the first vertex, then draw
/// a line through the rest.
pub open spec fn line_cmds(line: Seq<TileCoord>) -> Seq<Command> {
    Seq::new(
        line.len(),
        |i: int|
            if i == 0 {
                Command::MoveTo(line[0])
            } else {
                Command::LineTo(line[i])
            },
    )
}

/// The drawing commands of a ring: its open path, then a close-path command.
pub open spec fn ring_cmds(ring: Seq<TileCoord>) -> Seq<Command> {
    line_cmds(ring).push(Command::ClosePath)
}

/// Why a line is invalid, if it is: emptiness is reported before a
/// too-short length.
pub open spec fn line_err(line: Seq<TileCoord>) -> Option<InvalidGeometry> {
    if line.len() == 0 {
        Some(InvalidGeometry::EmptyLineGeometry)
    } else if line.len() < 2 {
        Some(InvalidGeometry::InvalidLineGeometry)
    } else {
        None
    }
}

/// Why a polygon ring is invalid, if it is: emptiness first, then the
/// three-vertex minimum, then a degenerate (zero) signed area.
pub open spec fn ring_err(ring: Seq<TileCoord>) -> Option<InvalidGeometry> {
    if ring.len() == 0 {
        Some(InvalidGeometry::EmptyPolygonGeometry)
    } else if ring.len() < 3 {
        Some(InvalidGeometry::InvalidPolygonGeometry)
    } else if signed_area(ring) == 0 {
        Some(InvalidGeometry::InvalidPolygonGeometry)
    } else {
        None
    }
}

/// Validates a line and appends its drawing commands.
///
/// On success the line's commands are appended to `commands`; on failure
/// `commands` is left unchanged and the error says why, with emptiness
/// reported before a too-short length.
pub fn encode_line(line: &[TileCoord], commands: &mut Vec<Command>) -> (r: Result<
    (),
    InvalidGeometry,
>)
    ensures
        r is Ok <==> line_err(line@) is None,
        r matches Ok(()) ==> final(commands)@ == old(commands)@ + line_cmds(line@),
        r matches Err(e) ==> line_err(line@) == Some(e) && final(commands)@ == old(commands)@,
{
    if line.is_empty() {
        return Err(InvalidGeometry::EmptyLineGeometry);
    } else if line.len() < 2 {
        return Err(InvalidGeometry::InvalidLineGeometry);
    }
    push_path(line, commands);
    Ok(())
}

/// Appends the open-path commands of a non-empty vertex sequence.
fn push_path(line: &[TileCoord], commands: &mut Vec<Command>)
    requires
        line@.len() > 0,
    ensures
        final(commands)@ == old(commands)@ + line_cmds(line@),
{
    let ghost start = commands@;
    let mut idx: usize = 0;
    proof {
        assert(start + line_cmds(line@).take(0) =~= start);
    }
    while idx < line.len()
        invariant
            0 <= idx <= line@.len(),
            commands@ == start + line_cmds(line@).take(idx as int),
        decreases line@.len() - idx,
    {
        let p = line[idx];
        if idx == 0 {
            commands.push(Command::MoveTo(p));
        } else {
            commands.push(Command::LineTo(p));
        }
        proof {
            assert(line_cmds(line@).take(idx + 1) =~= line_cmds(line@).take(idx as int).push(
                line_cmds(line@)[idx as int],
            ));
            assert(start + line_cmds(line@).take(idx + 1) =~= (start + line_cmds(line@).take(
                idx as int,
            )).push(line_cmds(line@)[idx as int]));
        }
        idx = idx + 1;
    }
    proof {
        assert(line_cmds(line@).take(line@.len() as int) =~= line_cmds(line@));
    }
}

/// Validates a polygon ring and appends its drawing commands.
///
/// On success the result carries the ring's signed area (twice the enclosed
/// area, by the shoelace formula over the implicitly closed ring), which is
/// never zero, and the ring's commands, close-path included, are appended to
/// `commands`; on failure `commands` is left unchanged.
pub fn encode_ring(ring: &[TileCoord], commands: &mut Vec<Command>) -> (r: Result<
    i128,
    InvalidGeometry,
>)
    ensures
        r is Ok <==> ring_err(ring@) is None,
        r matches Ok(area) ==> area == signed_area(ring@) && area != 0 && final(commands)@ == old(
            commands,
        )@ + ring_cmds(ring@),
        r matches Err(e) ==> ring_err(ring@) == Some(e) && final(commands)@ == old(commands)@,
{
    if ring.is_empty() {
        return Err(InvalidGeometry::EmptyPolygonGeometry);
    } else if ring.len() < 3 {
        return Err(InvalidGeometry::InvalidPolygonGeometry);
    }
    // Twice the signed area by the shoelace formula; computed in 128 bits,
    // where the sum of at most `usize::MAX` cross terms cannot overflow.
    let n = ring.len();
    let mut area: i128 = 0;
    let mut idx: usize = 0;
    while idx < n - 1
        invariant
            n == ring@.len(),
            3 <= n,
            0 <= idx <= n - 1,
            area == shoelace(ring@, idx as int),
            -0x8000_0000_0000_0000 * (idx as int) <= area <= 0x8000_0000_0000_0000 * (idx as int),
        decreases n - 1 - idx,
    {
        let t = cross_of(ring[idx], ring[idx + 1]);
        area = area + t;
        idx = idx + 1;
    }
    let t = cross_of(ring[n - 1], ring[0]);
    area = area + t;
    proof {
        assert(area == signed_area(ring@));
    }
    if area == 0 {
        return Err(InvalidGeometry::InvalidPolygonGeometry);
    }
    push_path(ring, commands);
    commands.push(Command::ClosePath);
    proof {
        assert(old(commands)@ + line_cmds(ring@) + seq![Command::ClosePath] =~= old(commands)@
            + ring_cmds(ring@));
    }
    Ok(area)
}

/// The geometry kind a feature carries on the wire.
#[derive(Debug, PartialEq, Eq, Clone, Copy)]
pub enum GeomType {
    Unknown,
    Point,
    Linestring,
    Polygon,
}

/// A validated geometry, ready to embed in a feature: its kind and its
/// encoded command stream.
#[derive(Debug, PartialEq, Eq)]
pub struct EncodedGeometry {
    geom_type: GeomType,
    commands: Vec<u32>,
}

/// The mathematical shape of an [`EncodedGeometry`].
pub struct EncodedGeometryView {
    pub geom_type: GeomType,
    pub commands: Seq<u32>,
}

impl View for EncodedGeometry {
    type V = EncodedGeometryView;

    closed spec fn view(&self) -> EncodedGeometryView {
        EncodedGeometryView { geom_type: self.geom_type, commands: self.commands@ }
    }
}

impl EncodedGeometry {
    /// Wraps an already encoded command stream with its geometry kind.
    pub fn new(geom_type: GeomType, commands: Vec<u32>) -> (r: EncodedGeometry)
        ensures
            r@.geom_type == geom_type,
            r@.commands == commands@,
    {
        EncodedGeometry { geom_type, commands }
    }

    /// The geometry kind.
    pub fn geom_type(&self) -> (r: GeomType)
        ensures
            r == self@.geom_type,
    {
        self.geom_type
    }

    /// The encoded command stream.
    pub fn commands(&self) -> (r: &Vec<u32>)
        ensures
            r@ == self@.commands,
    {
        &self.commands
    }
}

impl Clone for EncodedGeometry {
    fn clone(&self) -> (r: Self)
        ensures
            r@ == self@,
    {
        EncodedGeometry { geom_type: self.geom_type, commands: clone_words(&self.commands) }
    }
}

pub(crate) fn clone_words(v: &Vec<u32>) -> (r: Vec<u32>)
    ensures
        r@ == v@,
{
    let mut r: Vec<u32> = Vec::new();
    let mut i: usize = 0;
    proof {
        assert(v@.take(0) =~= r@);
    }
    while i < v.len()
        invariant
            0 <= i <= v@.len(),
            r@ == v@.take(i as int),
        decreases v@.len() - i,
    {
        r.push(v[i]);
        proof {
            assert(v@.take(i + 1) =~= v@.take(i as int).push(v@[i as int]));
        }
        i = i + 1;
    }
    proof {
        assert(v@.take(v@.len() as int) =~= v@);
    }
    r
}

/// A sequence of points in tile-local coordinates.
pub type TileCoords<'a> = &'a [TileCoord];

/// A geometry description in tile-local integer coordinates, as a caller
/// supplies it.
pub enum Geometry<'a> {
    Point(TileCoord),
    MultiPoint(TileCoords<'a>),
    Line(TileCoords<'a>),
    MultiLine(&'a [TileCoords<'a>]),
    Polygon(TileCoords<'a>, &'a [TileCoords<'a>]),
}

/// The mathematical shape of a [`Geometry`]: every slice abstracted to the
/// sequence of its points.
pub enum GeometryView {
    Point(TileCoord),
    MultiPoint(Seq<TileCoord>),
    Line(Seq<TileCoord>),
    MultiLine(Seq<Seq<TileCoord>>),
    Polygon(Seq<TileCoord>, Seq<Seq<TileCoord>>),
}

impl<'a> View for Geometry<'a> {
    type V = GeometryView;

    open spec fn view(&self) -> GeometryView {
        match self {
            Geometry::Point(p) => GeometryView::Point(*p),
            Geometry::MultiPoint(ps) => GeometryView::MultiPoint(ps@),
            Geometry::Line(l) => GeometryView::Line(l@),
            Geometry::MultiLine(ls) => GeometryView::MultiLine(
                ls@.map_values(|l: TileCoords<'a>| l@),
            ),
            Geometry::Polygon(e, ins) => GeometryView::Polygon(
                e@,
                ins@.map_values(|l: TileCoords<'a>| l@),
            ),
        }
    }
}

/// One move-to command per point.
pub open spec fn point_cmds(points: Seq<TileCoord>) -> Seq<Command> {
    points.map_values(|p: TileCoord| Command::MoveTo(p))
}

/// The concatenated open paths of a sequence of lines.
pub open spec fn lines_cmds(lines: Seq<Seq<TileCoord>>) -> Seq<Command>
    decreases lines.len(),
{
    if lines.len() == 0 {
        Seq::empty()
    } else {
        lines_cmds(lines.drop_last()) + line_cmds(lines.last())
    }
}

/// The concatenated ring commands of a sequence of rings.
pub open spec fn rings_cmds(rings: Seq<Seq<TileCoord>>) -> Seq<Command>
    decreases rings.len(),
{
    if rings.len() == 0 {
        Seq::empty()
    } else {
        rings_cmds(rings.drop_last()) + ring_cmds(rings.last())
    }
}

/// The first invalid line's error, in input order.
pub open spec fn lines_err(lines: Seq<Seq<TileCoord>>) -> Option<InvalidGeometry>
    decreases lines.len(),
{
    if lines.len() == 0 {
        None
    } else if line_err(lines.first()) is Some {
        line_err(lines.first())
    } else {
        lines_err(lines.drop_first())
    }
}

/// Why an interior ring is invalid, if it is: the general ring rules first,
/// then its winding, whose signed area must be negative — the sign opposite
/// to the exterior ring's.
pub open spec fn interior_err(ring: Seq<TileCoord>) -> Option<InvalidGeometry> {
    if ring_err(ring) is Some {
        ring_err(ring)
    } else if signed_area(ring) > 0 {
        Some(InvalidGeometry::InvalidPolygonGeometry)
    } else {
        None
    }
}

/// The first invalid interior ring's error, in input order.
pub open spec fn interiors_err(rings: Seq<Seq<TileCoord>>) -> Option<InvalidGeometry>
    decreases rings.len(),
{
    if rings.len() == 0 {
        None
    } else if interior_err(rings.first()) is Some {
        interior_err(rings.first())
    } else {
        interiors_err(rings.drop_first())
    }
}

/// The drawing commands a geometry describes, before validation.
pub open spec fn geo_cmds(g: GeometryView) -> Seq<Command> {
    match g {
        GeometryView::Point(p) => seq![Command::MoveTo(p)],
        GeometryView::MultiPoint(ps) => point_cmds(ps),
        GeometryView::Line(l) => line_cmds(l),
        GeometryView::MultiLine(ls) => lines_cmds(ls),
        GeometryView::Polygon(e, ins) => ring_cmds(e) + rings_cmds(ins),
    }
}

/// Why a geometry is invalid, if it is. Emptiness is reported first, then
/// minimum lengths, then, for polygons, the signed-area rules: the exterior
/// ring's area must be positive and every interior ring's negative, zero
/// being invalid for any ring; rings and lines are checked in input order.
pub open spec fn geo_err(g: GeometryView) -> Option<InvalidGeometry> {
    match g {
        GeometryView::Point(_) => None,
        GeometryView::MultiPoint(ps) => if ps.len() == 0 {
            Some(InvalidGeometry::EmptyPointGeometry)
        } else {
            None
        },
        GeometryView::Line(l) => line_err(l),
        GeometryView::MultiLine(ls) => if ls.len() == 0 {
            Some(InvalidGeometry::EmptyLineGeometry)
        } else {
            lines_err(ls)
        },
        GeometryView::Polygon(e, ins) => if ring_err(e) is Some {
            ring_err(e)
        } else if signed_area(e) < 0 {
            Some(InvalidGeometry::InvalidPolygonGeometry)
        } else {
            interiors_err(ins)
        },
    }
}

/// The wire geometry kind of a geometry description.
pub open spec fn geo_type(g: GeometryView) -> GeomType {
    match g {
        GeometryView::Point(_) => GeomType::Point,
        GeometryView::MultiPoint(_) => GeomType::Point,
        GeometryView::Line(_) => GeomType::Linestring,
        GeometryView::MultiLine(_) => GeomType::Linestring,
        GeometryView::Polygon(_, _) => GeomType::Polygon,
    }
}

proof fn lemma_lines_err_at(lines: Seq<Seq<TileCoord>>, i: int, e: InvalidGeometry)
    requires
        0 <= i < lines.len(),
        forall|k: int| 0 <= k < i ==> line_err(#[trigger] lines[k]) is None,
        line_err(lines[i]) == Some(e),
    ensures
        lines_err(lines) == Some(e),
    decreases i,
{
    if i == 0 {
    } else {
        let rest = lines.drop_first();
        assert forall|k: int| 0 <= k < i - 1 implies line_err(#[trigger] rest[k]) is None by {
            assert(rest[k] == lines[k + 1]);
        }
        assert(rest[i - 1] == lines[i]);
        lemma_lines_err_at(rest, i - 1, e);
    }
}

proof fn lemma_lines_err_none(lines: Seq<Seq<TileCoord>>)
    requires
        forall|k: int| 0 <= k < lines.len() ==> line_err(#[trigger] lines[k]) is None,
    ensures
        lines_err(lines) is None,
    decreases lines.len(),
{
    if lines.len() > 0 {
        let rest = lines.drop_first();
        assert forall|k: int| 0 <= k < rest.len() implies line_err(#[trigger] rest[k]) is None by {
            assert(rest[k] == lines[k + 1]);
        }
        lemma_lines_err_none(rest);
    }
}

proof fn lemma_interiors_err_at(rings: Seq<Seq<TileCoord>>, i: int, e: InvalidGeometry)
    requires
        0 <= i < rings.len(),
        forall|k: int| 0 <= k < i ==> interior_err(#[trigger] rings[k]) is None,
        interior_err(rings[i]) == Some(e),
    ensures
        interiors_err(rings) == Some(e),
    decreases i,
{
    if i == 0 {
    } else {
        let rest = rings.drop_first();
        assert forall|k: int| 0 <= k < i - 1 implies interior_err(#[trigger] rest[k]) is None by {
            assert(rest[k] == rings[k + 1]);
        }
        assert(rest[i - 1] == rings[i]);
        lemma_interiors_err_at(rest, i - 1, e);
    }
}

proof fn lemma_interiors_err_none(rings: Seq<Seq<TileCoord>>)
    requires
        forall|k: int| 0 <= k < rings.len() ==> interior_err(#[trigger] rings[k]) is None,
    ensures
        interiors_err(rings) is None,
    decreases rings.len(),
{
    if rings.len() > 0 {
        let rest = rings.drop_first();
        assert forall|k: int| 0 <= k < rest.len() implies interior_err(
            #[trigger] rest[k],
        ) is None by {
            assert(rest[k] == rings[k + 1]);
        }
        lemma_interiors_err_none(rest);
    }
}

/// A geometry description that can validate itself and produce its encoded
/// command stream.
pub trait EncodableGeometry {
    /// The mathematical shape of the geometry description.
    spec fn geo_view(&self) -> GeometryView;

    /// Validates the description and encodes it into a command stream.
    ///
    /// Succeeds exactly on the descriptions that break none of the geometry
    /// rules; the encoded stream is the grouped, delta- and zigzag-encoded
    /// form of the description's drawing commands, from a cursor starting at
    /// the tile origin.
    fn encode(&self) -> (r: Result<EncodedGeometry, InvalidGeometry>)
        requires
            geo_cmds(self.geo_view()).len() < 0x2000_0000,
        ensures
            r is Ok <==> geo_err(self.geo_view()) is None,
            r matches Ok(eg) ==> eg@.geom_type == geo_type(self.geo_view()) && eg@.commands
                == encode_stream(geo_cmds(self.geo_view()), (0, 0)),
            r matches Err(e) ==> geo_err(self.geo_view()) == Some(e),
    ;
}

impl<'a> EncodableGeometry for Geometry<'a> {
    open spec fn geo_view(&self) -> GeometryView {
        self@
    }

    fn encode(&self) -> (r: Result<EncodedGeometry, InvalidGeometry>) {
        match self {
            Geometry::Point(point) => {
                let mut commands: Vec<Command> = Vec::new();
                commands.push(Command::MoveTo(*point));
                proof {
                    assert(commands@ =~= geo_cmds(self@));
                }
                Ok(EncodedGeometry { geom_type: GeomType::Point, commands: encode_geometry(&commands) })
            },
            Geometry::MultiPoint(points) => {
                if points.is_empty() {
                    return Err(InvalidGeometry::EmptyPointGeometry);
                }
                let mut commands: Vec<Command> = Vec::new();
                let mut i: usize = 0;
                proof {
                    assert(point_cmds(points@.take(0)) =~= commands@);
                }
                while i < points.len()
                    invariant
                        0 <= i <= points@.len(),
                        commands@ == point_cmds(points@.take(i as int)),
                    decreases points@.len() - i,
                {
                    commands.push(Command::MoveTo(points[i]));
                    proof {
                        assert(point_cmds(points@.take(i + 1)) =~= point_cmds(
                            points@.take(i as int),
                        ).push(Command::MoveTo(points@[i as int])));
                    }
                    i = i + 1;
                }
                proof {
                    assert(points@.take(points@.len() as int) =~= points@);
                }
                Ok(EncodedGeometry { geom_type: GeomType::Point, commands: encode_geometry(&commands) })
            },
            Geometry::Line(line) => {
                let mut commands: Vec<Command> = Vec::new();
                match encode_line(line, &mut commands) {
                    Ok(()) => {
                        proof {
                            assert(commands@ =~= geo_cmds(self@));
                        }
                        Ok(EncodedGeometry {
                            geom_type: GeomType::Linestring,
                            commands: encode_geometry(&commands),
                        })
                    },
                    Err(e) => Err(e),
                }
            },
            Geometry::MultiLine(lines) => {
                if lines.is_empty() {
                    return Err(InvalidGeometry::EmptyLineGeometry);
                }
                let ghost lsv = lines@.map_values(|l: TileCoords<'a>| l@);
                let mut commands: Vec<Command> = Vec::new();
                let mut i: usize = 0;
                proof {
                    assert(lines_cmds(lsv.take(0)) =~= commands@);
                }
                while i < lines.len()
                    invariant
                        0 <= i <= lsv.len(),
                        lsv == lines@.map_values(|l: TileCoords<'a>| l@),
                        lsv.len() == lines@.len(),
                        forall|k: int| 0 <= k < i ==> line_err(#[trigger] lsv[k]) is None,
                        commands@ == lines_cmds(lsv.take(i as int)),
                        geo_cmds(self@) == lines_cmds(lsv),
                        geo_err(self@) == lines_err(lsv),
                        geo_cmds(self@).len() < 0x2000_0000,
                    decreases lsv.len() - i,
                {
                    proof {
                        assert(lsv[i as int] == lines@[i as int]@);
                    }
                    match encode_line(lines[i], &mut commands) {
                        Ok(()) => {
                            proof {
                                assert(lsv.take(i + 1).drop_last() =~= lsv.take(i as int));
                                assert(lsv.take(i + 1).last() == lsv[i as int]);
                            }
                        },
                        Err(e) => {
                            proof {
                                lemma_lines_err_at(lsv, i as int, e);
                            }
                            return Err(e);
                        },
                    }
                    i = i + 1;
                }
                proof {
                    lemma_lines_err_none(lsv);
                    assert(lsv.take(lsv.len() as int) =~= lsv);
                }
                Ok(EncodedGeometry {
                    geom_type: GeomType::Linestring,
                    commands: encode_geometry(&commands),
                })
            },
            Geometry::Polygon(exterior_ring, interior_rings) => {
                let ghost insv = interior_rings@.map_values(|l: TileCoords<'a>| l@);
                let mut commands: Vec<Command> = Vec::new();
                let area = match encode_ring(exterior_ring, &mut commands) {
                    Ok(a) => a,
                    Err(e) => {
                        return Err(e);
                    },
                };
                if area < 0 {
                    return Err(InvalidGeometry::InvalidPolygonGeometry);
                }
                let mut i: usize = 0;
                proof {
                    assert(rings_cmds(insv.take(0)) =~= Seq::<Command>::empty());
                    assert(commands@ =~= ring_cmds(exterior_ring@) + rings_cmds(insv.take(0)));
                }
                while i < interior_rings.len()
                    invariant
                        0 <= i <= insv.len(),
                        insv == interior_rings@.map_values(|l: TileCoords<'a>| l@),
                        insv.len() == interior_rings@.len(),
                        forall|k: int| 0 <= k < i ==> interior_err(#[trigger] insv[k]) is None,
                        commands@ == ring_cmds(exterior_ring@) + rings_cmds(insv.take(i as int)),
                        geo_cmds(self@) == ring_cmds(exterior_ring@) + rings_cmds(insv),
                        geo_err(self@) == interiors_err(insv),
                        geo_cmds(self@).len() < 0x2000_0000,
                    decreases insv.len() - i,
                {
                    proof {
                        assert(insv[i as int] == interior_rings@[i as int]@);
                    }
                    match encode_ring(interior_rings[i], &mut commands) {
                        Ok(a) => {
                            if a > 0 {
                                proof {
                                    lemma_interiors_err_at(
                                        insv,
                                        i as int,
                                        InvalidGeometry::InvalidPolygonGeometry,
                                    );
                                }
                                return Err(InvalidGeometry::InvalidPolygonGeometry);
                            }
                            proof {
                                assert(insv.take(i + 1).drop_last() =~= insv.take(i as int));
                                assert(insv.take(i + 1).last() == insv[i as int]);
                                assert(commands@ =~= ring_cmds(exterior_ring@) + rings_cmds(
                                    insv.take(i + 1),
                                ));
                            }
                        },
                        Err(e) => {
                            proof {
                                lemma_interiors_err_at(insv, i as int, e);
                            }
                            return Err(e);
                        },
                    }
                    i = i + 1;
                }
                proof {
                    lemma_interiors_err_none(insv);
                    assert(insv.take(insv.len() as int) =~= insv);
                }
                Ok(EncodedGeometry { geom_type: GeomType::Polygon, commands: encode_geometry(&commands) })
            },
        }
    }
}

/// Encoding is deterministic: the validation outcome and the encoded command
/// stream are functions of the geometry description alone, so encoding the
/// same description twice yields identical command streams.
pub proof fn lemma_encode_deterministic(a: GeometryView, b: GeometryView)
    requires
        a == b,
    ensures
        geo_err(a) == geo_err(b),
        geo_type(a) == geo_type(b),
        encode_stream(geo_cmds(a), (0, 0)) == encode_stream(geo_cmds(b), (0, 0)),
{
}

/// A decoded delta applied to the cursor, component-wise and wrapping: the
/// inverse step of [`delta`].
pub open spec fn apply_delta(cur: TileCoord, dx: i32, dy: i32) -> TileCoord {
    (
        vstd::wrapping::i32_specs::wrapping_add(cur.0, dx),
        vstd::wrapping::i32_specs::wrapping_add(cur.1, dy),
    )
}

proof fn lemma_apply_delta_inverts(from: TileCoord, to: TileCoord)
    ensures
        apply_delta(from, delta(from, to).0, delta(from, to).1) == to,
{
}

proof fn lemma_params_len(run: Seq<Command>, cur: TileCoord)
    ensures
        params_of(run, cur).len() == 2 * run.len(),
    decreases run.len(),
{
    if run.len() > 0 {
        lemma_params_len(run.drop_first(), target(run[0]));
    }
}

/// Every command within the leading run continues the first command's kind.
proof fn lemma_run_len_char(cmds: Seq<Command>)
    requires
        cmds.len() > 0,
    ensures
        forall|k: int| 1 <= k < run_len(cmds) ==> same_kind(cmds[0], #[trigger] cmds[k]),
    decreases cmds.len(),
{
    lemma_run_len_bounds(cmds);
    if cmds.len() >= 2 && same_kind(cmds[0], cmds[1]) {
        let rest = cmds.drop_first();
        lemma_run_len_char(rest);
        assert forall|k: int| 1 <= k < run_len(cmds) implies same_kind(
            cmds[0],
            #[trigger] cmds[k],
        ) by {
            if k >= 2 {
                assert(rest[k - 1] == cmds[k]);
                assert(same_kind(rest[0], rest[k - 1]));
            }
        }
    }
}

/// Decodes the parameters of one run: `count` coordinate pairs, each
/// unzigzagged and added to the moving cursor. Returns the decoded commands
/// and the cursor after the run, or nothing on malformed input.
pub open spec fn decode_params(words: Seq<u32>, count: int, moving: bool, cur: TileCoord) -> Option<
    (Seq<Command>, TileCoord),
>
    decreases count,
{
    if count <= 0 {
        Some((Seq::empty(), cur))
    } else if words.len() < 2 {
        None
    } else {
        let p = apply_delta(cur, unzigzag(words[0]), unzigzag(words[1]));
        let c = if moving {
            Command::MoveTo(p)
        } else {
            Command::LineTo(p)
        };
        match decode_params(words.skip(2), count - 1, moving, p) {
            Some((rest, end)) => Some((seq![c] + rest, end)),
            None => None,
        }
    }
}

/// Decodes a command stream back into absolute-space commands, or nothing on
/// malformed input: each command word's low 3 bits name the command, its
/// upper bits the run length.
pub open spec fn decode_stream(words: Seq<u32>, cur: TileCoord) -> Option<Seq<Command>>
    decreases words.len(),
{
    if words.len() == 0 {
        Some(Seq::empty())
    } else {
        let w = words[0] as int;
        let id = w % 8;
        let count = w / 8;
        if id == 7 && count == 1 {
            match decode_stream(words.drop_first(), cur) {
                Some(rest) => Some(seq![Command::ClosePath] + rest),
                None => None,
            }
        } else if (id == 1 || id == 2) && 1 <= count && 2 * count + 1 <= words.len() {
            match decode_params(words.subrange(1, 2 * count + 1), count, id == 1, cur) {
                Some((cmds, end)) => match decode_stream(words.skip(2 * count + 1), end) {
                    Some(rest) => Some(cmds + rest),
                    None => None,
                },
                None => None,
            }
        } else {
            None
        }
    }
}

proof fn lemma_decode_params_of(run: Seq<Command>, cur: TileCoord, moving: bool)
    requires
        forall|m: int| 0 <= m < run.len() ==> !(#[trigger] run[m] is ClosePath),
        forall|m: int| 0 <= m < run.len() ==> ((#[trigger] run[m] is MoveTo) <==> moving),
    ensures
        decode_params(params_of(run, cur), run.len() as int, moving, cur) == Some(
            (run, cursor_after(run, cur)),
        ),
    decreases run.len(),
{
    if run.len() > 0 {
        let p = target(run[0]);
        let d = delta(cur, p);
        lemma_apply_delta_inverts(cur, p);
        lemma_zigzag_roundtrip(d.0);
        lemma_zigzag_roundtrip(d.1);
        let words = params_of(run, cur);
        lemma_params_len(run, cur);
        lemma_params_len(run.drop_first(), p);
        assert(words[0] == zigzag(d.0));
        assert(words[1] == zigzag(d.1));
        assert(words.skip(2) =~= params_of(run.drop_first(), p));
        let rest = run.drop_first();
        assert forall|m: int| 0 <= m < rest.len() implies !(#[trigger] rest[m] is ClosePath) && ((
        rest[m] is MoveTo) <==> moving) by {
            assert(rest[m] == run[m + 1]);
        }
        lemma_decode_params_of(rest, p, moving);
        assert(seq![run[0]] + rest =~= run);
        if rest.len() == 0 {
            assert(cursor_after(run, cur) == p);
        } else {
            assert(rest.last() == run.last());
        }
    }
}

/// Decoding inverts encoding: for any command sequence whose runs fit a
/// command word, the encoded stream, decoded from the same starting cursor,
/// reconstructs exactly the original absolute command sequence — the
/// delta-and-zigzag round trip loses nothing.
pub proof fn lemma_decode_encode(cmds: Seq<Command>, cur: TileCoord)
    requires
        cmds.len() < 0x2000_0000,
    ensures
        decode_stream(encode_stream(cmds, cur), cur) == Some(cmds),
    decreases cmds.len(),
{
    if cmds.len() == 0 {
    } else if cmds[0] is ClosePath {
        let rest = encode_stream(cmds.drop_first(), cur);
        let words = seq![cmd_word(7, 1)] + rest;
        assert(words[0] == 15);
        assert(words.drop_first() =~= rest);
        lemma_decode_encode(cmds.drop_first(), cur);
        assert(seq![Command::ClosePath] + cmds.drop_first() =~= cmds);
    } else {
        let n = run_len(cmds);
        lemma_run_len_bounds(cmds);
        lemma_run_len_char(cmds);
        let run = cmds.take(n);
        let id = cmd_id(cmds[0]);
        let w = cmd_word(id, n);
        let params = params_of(run, cur);
        lemma_params_len(run, cur);
        let tail = encode_stream(cmds.skip(n), cursor_after(run, cur));
        let words = seq![w] + params + tail;
        assert(encode_stream(cmds, cur) == words);
        assert(1 <= id < 8 && (id == 1 || id == 2));
        assert(w == id + 8 * n);
        assert((id + 8 * n) % 8 == id && (id + 8 * n) / 8 == n) by (nonlinear_arith)
            requires
                0 <= id < 8 && 0 <= n,
        ;
        assert(words[0] as int == id + 8 * n);
        assert(words.subrange(1, 2 * n + 1) =~= params);
        assert(words.skip(2 * n + 1) =~= tail);
        assert forall|m: int| 0 <= m < run.len() implies !(#[trigger] run[m] is ClosePath) && ((
        run[m] is MoveTo) <==> (id == 1)) by {
            assert(run[m] == cmds[m]);
            if m >= 1 {
                assert(same_kind(cmds[0], cmds[m]));
            }
        }
        lemma_decode_params_of(run, cur, id == 1);
        lemma_decode_encode(cmds.skip(n), cursor_after(run, cur));
        assert(run + cmds.skip(n) =~= cmds);
    }
}

/// The geometry-level round trip: for any geometry description small enough
/// to encode, the command stream that [`EncodableGeometry::encode`] emits for
/// it, decoded from the tile origin, reconstructs exactly the geometry's
/// absolute-space drawing commands, and with them the original coordinate
/// sequence.
pub proof fn lemma_encode_roundtrip(g: GeometryView)
    requires
        geo_cmds(g).len() < 0x2000_0000,
    ensures
        decode_stream(encode_stream(geo_cmds(g), (0, 0)), (0, 0)) == Some(geo_cmds(g)),
{
    lemma_decode_encode(geo_cmds(g), (0, 0));
}

} // verus!
