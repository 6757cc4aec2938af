use vstd::prelude::*;

verus! {

/// Which of the three construction strategies a session uses.
#[derive(Clone, Copy, Debug, PartialEq, Eq, Structural)]
pub enum LayoutType {
    Easy,
    Complex,
    Generated,
}

impl Default for LayoutType {
    fn default() -> (r: Self)
        ensures
            r == LayoutType::Generated,
    {
        LayoutType::Generated
    }
}

/// A set of contiguous indices `[start, end)` on the grid.
#[derive(Clone, Copy, Debug, PartialEq, Eq, Structural)]
pub struct Section {
    pub start: usize,
    pub end: usize,
}

impl Section {
    /// The indices of this section, in increasing order.
    pub open spec fn seq_of(self) -> Seq<usize> {
        if self.start <= self.end {
            Seq::new((self.end - self.start) as nat, |i: int| (self.start + i) as usize)
        } else {
            Seq::empty()
        }
    }
}

pub fn section(start: usize, end: usize) -> (s: Section)
    requires
        start <= end,
    ensures
        s.start == start && s.end == end,
{
    Section { start, end }
}

/// All indices of a run of sections, in order.
pub open spec fn flatten_sections(secs: Seq<Section>) -> Seq<usize>
    decreases secs.len(),
{
    if secs.len() == 0 {
        Seq::empty()
    } else {
        secs[0].seq_of() + flatten_sections(secs.drop_first())
    }
}

pub proof fn lemma_flatten_concat(u: Seq<Section>, v: Seq<Section>)
    ensures
        flatten_sections(u + v) == flatten_sections(u) + flatten_sections(v),
    decreases u.len(),
{
    if u.len() == 0 {
        assert(u + v =~= v);
        assert(flatten_sections(u) + flatten_sections(v) =~= flatten_sections(v));
    } else {
        lemma_flatten_concat(u.drop_first(), v);
        assert((u + v).drop_first() =~= u.drop_first() + v);
        assert(u[0].seq_of() + (flatten_sections(u.drop_first()) + flatten_sections(v)) =~= (
        u[0].seq_of() + flatten_sections(u.drop_first())) + flatten_sections(v));
        assert(flatten_sections(u + v) == u[0].seq_of() + flatten_sections(u.drop_first() + v));
    }
}

/// Flattening one more section appends exactly that section's indices.
pub proof fn lemma_flatten_take_step(s: Seq<Section>, i: int)
    requires
        0 <= i < s.len(),
    ensures
        flatten_sections(s.take(i + 1)) == flatten_sections(s.take(i)) + s[i].seq_of(),
{
    let single = seq![s[i]];
    assert(s.take(i + 1) =~= s.take(i) + single);
    lemma_flatten_concat(s.take(i), single);
    assert(single.drop_first() =~= Seq::<Section>::empty());
    assert(flatten_sections(single) == s[i].seq_of() + flatten_sections(Seq::<Section>::empty()));
    assert(flatten_sections(single) =~= s[i].seq_of());
}

/// A run of one-cell sections flattens to the run of their start cells.
pub proof fn lemma_flatten_singletons(s: Seq<Section>)
    requires
        forall|k: int| 0 <= k < s.len() ==> (#[trigger] s[k]).end == s[k].start + 1,
    ensures
        flatten_sections(s).len() == s.len(),
        forall|k: int| 0 <= k < s.len() ==> flatten_sections(s)[k] == (#[trigger] s[k]).start,
    decreases s.len(),
{
    if s.len() == 0 {
    } else {
        let rest = s.drop_first();
        assert(forall|k: int| 0 <= k < rest.len() ==> (#[trigger] rest[k]).end == rest[k].start
            + 1) by {
            assert(forall|k: int| 0 <= k < rest.len() ==> rest[k] == s[k + 1]);
        }
        lemma_flatten_singletons(rest);
        assert(s[0].seq_of().len() == 1);
        assert(s[0].seq_of()[0] == s[0].start);
        assert(forall|k: int| 1 <= k < s.len() ==> flatten_sections(s)[k] == flatten_sections(
            rest,
        )[k - 1] && rest[k - 1] == (#[trigger] s[k]));
    }
}

/// A section holds exactly the indices from `start` up to but excluding `end`.
pub proof fn lemma_section_contains(s: Section, c: usize)
    ensures
        s.seq_of().contains(c) <==> s.start <= c < s.end,
{
    if s.start <= c < s.end {
        assert(s.seq_of()[c - s.start] == c);
    }
}

/// An index appears in a flattened run exactly when one of its sections holds it.
pub proof fn lemma_flatten_contains(s: Seq<Section>, c: usize)
    ensures
        flatten_sections(s).contains(c) <==> exists|k: int|
            0 <= k < s.len() && (#[trigger] s[k].seq_of()).contains(c),
    decreases s.len(),
{
    if s.len() == 0 {
    } else {
        lemma_flatten_contains(s.drop_first(), c);
        let rest = s.drop_first();
        if flatten_sections(s).contains(c) {
            let j = choose|j: int| 0 <= j < flatten_sections(s).len() && flatten_sections(s)[j]
                == c;
            if j < s[0].seq_of().len() {
                assert(s[0].seq_of().contains(c));
            } else {
                assert(flatten_sections(rest)[j - s[0].seq_of().len()] == c);
                assert(flatten_sections(rest).contains(c));
                let k = choose|k: int| 0 <= k < rest.len() && (#[trigger] rest[k].seq_of())
                    .contains(c);
                assert(s[k + 1].seq_of().contains(c));
            }
        }
        if exists|k: int| 0 <= k < s.len() && (#[trigger] s[k].seq_of()).contains(c) {
            let k = choose|k: int| 0 <= k < s.len() && (#[trigger] s[k].seq_of()).contains(c);
            if k == 0 {
                let j = choose|j: int| 0 <= j < s[0].seq_of().len() && s[0].seq_of()[j] == c;
                assert(flatten_sections(s)[j] == c);
            } else {
                assert(rest[k - 1].seq_of().contains(c));
                assert(flatten_sections(rest).contains(c));
                let j = choose|j: int| 0 <= j < flatten_sections(rest).len() && flatten_sections(
                    rest,
                )[j] == c;
                assert(flatten_sections(s)[s[0].seq_of().len() + j] == c);
            }
        }
    }
}

/// An index appears in a flattened run exactly when it lies in one of the
/// sections' ranges.
pub proof fn lemma_sections_contains(secs: Seq<Section>, c: usize)
    ensures
        flatten_sections(secs).contains(c) <==> exists|k: int|
            0 <= k < secs.len() && (#[trigger] secs[k]).start <= c < secs[k].end,
{
    lemma_flatten_contains(secs, c);
    if flatten_sections(secs).contains(c) {
        let k = choose|k: int| 0 <= k < secs.len() && (#[trigger] secs[k].seq_of()).contains(c);
        lemma_section_contains(secs[k], c);
        assert(secs[k].start <= c < secs[k].end);
    }
    if exists|k: int| 0 <= k < secs.len() && (#[trigger] secs[k]).start <= c < secs[k].end {
        let k = choose|k: int| 0 <= k < secs.len() && (#[trigger] secs[k]).start <= c < secs[
            k
        ].end;
        lemma_section_contains(secs[k], c);
        assert(secs[k].seq_of().contains(c));
    }
}

/// Flattening sections whose ranges come in ascending, non-overlapping order
/// repeats no index.
pub proof fn lemma_flatten_ordered_distinct(s: Seq<Section>)
    requires
        forall|k1: int, k2: int|
            0 <= k1 < k2 < s.len() ==> (#[trigger] s[k1]).end <= (#[trigger] s[k2]).start,
    ensures
        flatten_sections(s).no_duplicates(),
    decreases s.len(),
{
    if s.len() > 0 {
        let rest = s.drop_first();
        assert forall|k1: int, k2: int| 0 <= k1 < k2 < rest.len() implies (#[trigger] rest[
            k1
        ]).end <= (#[trigger] rest[k2]).start by {
            assert(rest[k1] == s[k1 + 1] && rest[k2] == s[k2 + 1]);
        }
        lemma_flatten_ordered_distinct(rest);
        let f0 = s[0].seq_of();
        let fr = flatten_sections(rest);
        assert forall|j: int| 0 <= j < fr.len() implies fr[j] >= s[0].end by {
            let v = fr[j];
            assert(fr.contains(v));
            lemma_sections_contains(rest, v);
            let k = choose|k: int|
                0 <= k < rest.len() && (#[trigger] rest[k]).start <= v < rest[k].end;
            assert(rest[k] == s[k + 1]);
            assert(s[0].end <= s[k + 1].start);
        }
        assert forall|i1: int, i2: int|
            0 <= i1 < flatten_sections(s).len() && 0 <= i2 < flatten_sections(s).len() && i1
            != i2 implies flatten_sections(s)[i1] != flatten_sections(s)[i2] by {
            if i1 < f0.len() && i2 < f0.len() {
                assert(f0[i1] == s[0].start + i1 && f0[i2] == s[0].start + i2);
            } else if i1 >= f0.len() && i2 >= f0.len() {
                assert(fr[i1 - f0.len()] != fr[i2 - f0.len()]);
            } else if i1 < f0.len() {
                assert(f0[i1] < s[0].end && fr[i2 - f0.len()] >= s[0].end);
            } else {
                assert(f0[i2] < s[0].end && fr[i1 - f0.len()] >= s[0].end);
            }
        }
    }
}

/// Returns whether `x` occurs in `v`.
fn contains_index(v: &Vec<usize>, x: usize) -> (b: bool)
    ensures
        b == v@.contains(x),
{
    let mut i: usize = 0;
    while i < v.len()
        invariant
            i <= v@.len(),
            forall|j: int| 0 <= j < i ==> v@[j] != x,
        decreases v@.len() - i,
    {
        if v[i] == x {
            return true;
        }
        i = i + 1;
    }
    false
}

/// Flattens a run of sections into the list of the cells they hold.
fn section_to_int(args: Vec<Section>) -> (r: Vec<usize>)
    ensures
        r@ == flatten_sections(args@),
{
    let mut vec: Vec<usize> = Vec::new();
    let mut i: usize = 0;
    while i < args.len()
        invariant
            i <= args@.len(),
            vec@ == flatten_sections(args@.take(i as int)),
        decreases args@.len() - i,
    {
        let sec = args[i];
        let mut c: usize = sec.start;
        while c < sec.end
            invariant
                sec == args@[i as int],
                i < args@.len(),
                sec.start <= c <= sec.end || (sec.end < sec.start && c == sec.start),
                vec@ == flatten_sections(args@.take(i as int)) + sec.seq_of().take(
                    if sec.start <= c {
                        c - sec.start
                    } else {
                        0
                    },
                ),
            decreases sec.end - c,
        {
            vec.push(c);
            assert(sec.seq_of().take(c - sec.start + 1) =~= sec.seq_of().take(c - sec.start).push(
                c,
            ));
            c = c + 1;
        }
        proof {
            lemma_flatten_take_step(args@, i as int);
            if sec.start <= sec.end {
                assert(sec.seq_of().take(sec.end - sec.start) =~= sec.seq_of());
            } else {
                assert(sec.seq_of().take(0) =~= sec.seq_of());
            }
        }
        i = i + 1;
    }
    assert(args@.take(args@.len() as int) =~= args@);
    vec
}

/// Colored area of a layout: the cells it owns, flattened, and its color.
#[derive(Debug, Hash, PartialEq, Eq)]
pub struct Area {
    pub sections: Vec<usize>,
    pub color: u8,
}

impl Area {
    pub fn from_sections(sections: Vec<Section>, color: u8) -> (a: Area)
        ensures
            a.sections@ == flatten_sections(sections@),
            a.color == color,
    {
        let res = section_to_int(sections);

        Self { sections: res, color }
    }

    pub fn from_usize(i: usize, color: u8) -> (a: Area)
        requires
            i < usize::MAX,
        ensures
            a.sections@ =~= seq![i],
            a.color == color,
    {
        let mut secs: Vec<Section> = Vec::new();
        secs.push(section(i, i + 1));
        let ghost sv = secs@;
        let a = Area::from_sections(secs, color);
        proof {
            assert(sv.drop_first() =~= Seq::<Section>::empty());
            assert(flatten_sections(sv.drop_first()) == Seq::<usize>::empty());
            assert(flatten_sections(sv) == sv[0].seq_of() + Seq::<usize>::empty());
            assert(sv[0].seq_of() =~= seq![i]);
            assert(sv[0].seq_of() + Seq::<usize>::empty() =~= seq![i]);
        }
        a
    }

    pub fn get_sections(&self) -> (r: &Vec<usize>)
        ensures
            r@ == self.sections@,
    {
        &self.sections
    }

    pub fn get_color(&self) -> (c: u8)
        ensures
            c == self.color,
    {
        self.color
    }
}

impl Clone for Area {
    fn clone(&self) -> (r: Self)
        ensures
            r.sections@ == self.sections@,
            r.color == self.color,
    {
        let mut sections: Vec<usize> = Vec::new();
        let mut i: usize = 0;
        while i < self.sections.len()
            invariant
                i <= self.sections@.len(),
                sections@ == self.sections@.take(i as int),
            decreases self.sections@.len() - i,
        {
            sections.push(self.sections[i]);
            i = i + 1;
        }
        assert(sections@ == self.sections@);

        Area { sections, color: self.color }
    }
}

/// Whether cell `b` is a forward (down-right or down-left) diagonal
/// neighbour of cell `a` on an n-by-n board, the only directions the rule
/// checker looks in.
pub open spec fn diag_pair(a: int, b: int, n: int) -> bool {
    ||| (a % n != n - 1 && b == a + n + 1)
    ||| (a % n != 0 && b == a + n - 1)
}

/// Two cells that share no row, no column, and no immediate diagonal
/// adjacency in either direction.
pub open spec fn no_attack(a: int, b: int, n: int) -> bool {
    &&& a / n != b / n
    &&& a % n != b % n
    &&& !diag_pair(a, b, n)
    &&& !diag_pair(b, a, n)
}

/// The color the hand-authored n=10 template assigns to each board cell; 10
/// for a cell off the board.
pub open spec fn template_color_of(c: int) -> int {
    if 0 <= c < 10 || c == 19 || c == 29 || c == 39 || c == 49 || c == 59 || c == 69 || c == 79
        || c == 89 || c == 99 {
        0
    } else if 10 <= c < 13 || 20 <= c < 23 || 30 <= c < 35 {
        1
    } else if c == 27 || c == 37 || 47 <= c < 49 || 54 <= c < 59 || 65 <= c < 69 || c == 78 {
        2
    } else if 13 <= c < 19 || 23 <= c < 27 || c == 28 || c == 35 || c == 38 {
        3
    } else if 43 <= c < 45 {
        4
    } else if c == 36 || 45 <= c < 47 {
        5
    } else if 40 <= c < 43 || 50 <= c < 54 || 60 <= c < 64 || 70 <= c < 72 || 80 <= c < 85 || 90
        <= c < 95 {
        6
    } else if 72 <= c < 74 {
        7
    } else if c == 64 || 74 <= c < 78 || 85 <= c < 89 || 95 <= c < 98 {
        8
    } else if c == 98 {
        9
    } else {
        10
    }
}

/// Layout of multiple areas.
#[derive(Debug)]
pub struct Layout {
    pub areas: Vec<Area>,
}

/// The first area at or after position `i` that holds cell `c`, if any.
pub open spec fn owner_from(areas: Seq<Area>, c: usize, i: int) -> Option<int>
    decreases areas.len() - i,
{
    if i < 0 || i >= areas.len() {
        None
    } else if areas[i].sections@.contains(c) {
        Some(i)
    } else {
        owner_from(areas, c, i + 1)
    }
}

impl Layout {
    /// Whether area `i` of this layout holds cell `c`.
    pub open spec fn area_has(self, i: int, c: usize) -> bool {
        self.areas@[i].sections@.contains(c)
    }

    /// Whether some of the first `n` areas holds cell `c`.
    pub open spec fn covers(self, n: int, c: usize) -> bool {
        exists|i: int| 0 <= i < n && #[trigger] self.area_has(i, c)
    }

    /// The areas split the n-by-n board exactly: there are n of them, none is
    /// empty, every cell of the board lies in one of them, and no cell lies in
    /// two.
    pub open spec fn is_partition(self, n: int) -> bool {
        &&& self.areas@.len() == n
        &&& forall|i: int| 0 <= i < n ==> (#[trigger] self.areas@[i].sections@.len()) > 0
        &&& forall|i: int, c: usize|
            0 <= i < n && #[trigger] self.area_has(i, c) ==> c < n * n
        &&& forall|c: usize| c < n * n ==> #[trigger] self.covers(n, c)
        &&& forall|i: int, j: int, c: usize|
            #![trigger self.area_has(i, c), self.area_has(j, c)]
            0 <= i < n && 0 <= j < n && self.area_has(i, c) && self.area_has(j, c) ==> i == j
    }

    /// No area's carrier list repeats a cell.
    pub open spec fn areas_distinct(self) -> bool {
        forall|i: int|
            0 <= i < self.areas@.len() ==> (#[trigger] self.areas@[i]).sections@.no_duplicates()
    }

    /// The row-bands layout: ten areas, area `i` holding exactly the ten
    /// cells of row `i` in order.
    pub open spec fn is_rows_layout(self) -> bool {
        &&& self.areas@.len() == 10
        &&& forall|i: int| 0 <= i < 10 ==> (#[trigger] self.areas@[i]).sections@.len() == 10
        &&& forall|i: int, j: int|
            0 <= i < 10 && 0 <= j < 10 ==> (#[trigger] self.areas@[i].sections@[j]) == i * 10 + j
    }

    /// The hand-authored template layout: ten areas, area `i` holding exactly
    /// the cells the template colors `i`.
    pub open spec fn is_template_layout(self) -> bool {
        &&& self.areas@.len() == 10
        &&& forall|i: int, c: usize|
            0 <= i < 10 ==> ((#[trigger] self.area_has(i, c)) <==> (c < 100 && template_color_of(
                c as int,
            ) == i))
    }

    /// The first cell that was put into area `i`: its seed during generation.
    pub open spec fn seed_of(self, i: int) -> usize {
        self.areas@[i].sections@[0]
    }

    /// The seed cells are mutually non-attacking, so marking exactly them is
    /// one valid solution of the puzzle.
    pub open spec fn seeds_solve(self, n: int) -> bool {
        forall|i: int, j: int|
            #![trigger self.seed_of(i), self.seed_of(j)]
            0 <= i < j < n ==> no_attack(self.seed_of(i) as int, self.seed_of(j) as int, n)
    }

    /// Area `i` carries color `i`.
    pub open spec fn distinct_colors(self) -> bool {
        forall|i: int|
            0 <= i < self.areas@.len() ==> (#[trigger] self.areas@[i]).color == i as u8
    }

    fn new(areas: Vec<Area>) -> (l: Layout)
        ensures
            l.areas@ == areas@,
    {
        Self { areas }
    }

    pub fn get_areas(&self) -> (r: &Vec<Area>)
        ensures
            r@ == self.areas@,
    {
        &self.areas
    }

    /// Builds one area per entry of `sections`, colored in order.
    pub(crate) fn from_sections(sections: Vec<Vec<Section>>, n: usize) -> (l: Layout)
        requires
            sections@.len() == n,
            n <= 255,
        ensures
            l.areas@.len() == n,
            forall|i: int|
                0 <= i < n ==> (#[trigger] l.areas@[i]).sections@ == flatten_sections(
                    sections@[i]@,
                ) && l.areas@[i].color == i as u8,
    {
        let mut areas: Vec<Area> = Vec::new();
        let mut i: usize = 0;
        while i < sections.len()
            invariant
                sections@.len() == n,
                n <= 255,
                i <= n,
                areas@.len() == i,
                forall|j: int|
                    0 <= j < i ==> (#[trigger] areas@[j]).sections@ == flatten_sections(
                        sections@[j]@,
                    ) && areas@[j].color == j as u8,
            decreases sections@.len() - i,
        {
            let secs = sections[i].clone();
            assert(secs@ =~= sections@[i as int]@);
            areas.push(Area::from_sections(secs, i as u8));
            i = i + 1;
        }

        Self::new(areas)
    }

    /// Linear scan for the first area holding `index`; fails when the layout
    /// does not cover that cell.
    pub fn get_area(&self, index: usize) -> (r: Result<Area, &'static str>)
        ensures
            match owner_from(self.areas@, index, 0) {
                Some(i) => r matches Ok(a) && a.sections@ == self.areas@[i].sections@ && a.color
                    == self.areas@[i].color,
                None => r is Err,
            },
    {
        let mut i: usize = 0;
        while i < self.areas.len()
            invariant
                i <= self.areas@.len(),
                owner_from(self.areas@, index, 0) == owner_from(self.areas@, index, i as int),
            decreases self.areas@.len() - i,
        {
            if contains_index(&self.areas[i].sections, index) {
                return Ok(self.areas[i].clone());
            }
            i = i + 1;
        }

        Err("No area found for index")
    }
}

impl Clone for Layout {
    fn clone(&self) -> (r: Self)
        ensures
            r.areas@.len() == self.areas@.len(),
            forall|i: int|
                0 <= i < self.areas@.len() ==> (#[trigger] r.areas@[i]).sections@
                    == self.areas@[i].sections@ && r.areas@[i].color == self.areas@[i].color,
    {
        let mut areas: Vec<Area> = Vec::new();
        let mut i: usize = 0;
        while i < self.areas.len()
            invariant
                i <= self.areas@.len(),
                areas@.len() == i,
                forall|j: int|
                    0 <= j < i ==> (#[trigger] areas@[j]).sections@ == self.areas@[j].sections@
                        && areas@[j].color == self.areas@[j].color,
            decreases self.areas@.len() - i,
        {
            areas.push(self.areas[i].clone());
            i = i + 1;
        }

        Layout { areas }
    }
}

/// Decides whether the layout's areas split the n-by-n board exactly, by
/// scanning every cell for the areas that hold it.
pub fn check_partition(l: &Layout, n: usize) -> (b: bool)
    requires
        n <= 255,
    ensures
        b == l.is_partition(n as int),
{
    if l.areas.len() != n {
        return false;
    }
    assert(n * n <= 65025) by (nonlinear_arith)
        requires
            n <= 255,
    ;
    let size: usize = n * n;

    let mut i: usize = 0;
    while i < n
        invariant
            l.areas@.len() == n,
            size == n * n,
            i <= n,
            forall|i2: int| 0 <= i2 < i ==> (#[trigger] l.areas@[i2].sections@.len()) > 0,
            forall|i2: int, c: usize|
                0 <= i2 < i && #[trigger] l.area_has(i2, c) ==> c < n * n,
        decreases n - i,
    {
        if l.areas[i].sections.len() == 0 {
            assert(!l.is_partition(n as int));
            return false;
        }
        let mut j: usize = 0;
        while j < l.areas[i].sections.len()
            invariant
                l.areas@.len() == n,
                size == n * n,
                i < n,
                j <= l.areas@[i as int].sections@.len(),
                forall|k: int| 0 <= k < j ==> l.areas@[i as int].sections@[k] < n * n,
            decreases l.areas@[i as int].sections@.len() - j,
        {
            if l.areas[i].sections[j] >= size {
                assert(l.area_has(i as int, l.areas@[i as int].sections@[j as int]));
                assert(!l.is_partition(n as int));
                return false;
            }
            j = j + 1;
        }
        assert(forall|c: usize| #[trigger] l.area_has(i as int, c) ==> c < n * n) by {
            assert(forall|c: usize|
                l.area_has(i as int, c) ==> exists|k: int|
                    0 <= k < l.areas@[i as int].sections@.len() && l.areas@[i as int].sections@[k]
                        == c);
        }
        i = i + 1;
    }

    let mut c: usize = 0;
    while c < size
        invariant
            l.areas@.len() == n,
            size == n * n,
            c <= size,
            forall|c2: usize| c2 < c ==> #[trigger] l.covers(n as int, c2),
            forall|i2: int, j2: int, c2: usize|
                #![trigger l.area_has(i2, c2), l.area_has(j2, c2)]
                0 <= i2 < n && 0 <= j2 < n && c2 < c && l.area_has(i2, c2) && l.area_has(j2, c2)
                    ==> i2 == j2,
            forall|i2: int| 0 <= i2 < n ==> (#[trigger] l.areas@[i2].sections@.len()) > 0,
            forall|i2: int, c2: usize|
                0 <= i2 < n && #[trigger] l.area_has(i2, c2) ==> c2 < n * n,
        decreases size - c,
    {
        let mut found: bool = false;
        let mut fi: usize = 0;
        let mut i2: usize = 0;
        while i2 < n
            invariant
                l.areas@.len() == n,
                i2 <= n,
                !found ==> forall|w: int| 0 <= w < i2 ==> !(#[trigger] l.area_has(w, c)),
                found ==> fi < i2 && l.area_has(fi as int, c) && forall|w: int|
                    0 <= w < i2 && w != fi ==> !(#[trigger] l.area_has(w, c)),
            decreases n - i2,
        {
            if contains_index(&l.areas[i2].sections, c) {
                if found {
                    assert(l.area_has(fi as int, c) && l.area_has(i2 as int, c) && fi != i2);
                    assert(!l.is_partition(n as int));
                    return false;
                }
                found = true;
                fi = i2;
            }
            i2 = i2 + 1;
        }
        if !found {
            assert(!l.covers(n as int, c));
            assert(!l.is_partition(n as int));
            return false;
        }
        c = c + 1;
    }

    true
}

/// The sections of the hand-authored template, area by area.
pub open spec fn template_sections(i: int) -> Seq<Section> {
    if i == 0 {
        seq![
            Section { start: 0, end: 10 },
            Section { start: 19, end: 20 },
            Section { start: 29, end: 30 },
            Section { start: 39, end: 40 },
            Section { start: 49, end: 50 },
            Section { start: 59, end: 60 },
            Section { start: 69, end: 70 },
            Section { start: 79, end: 80 },
            Section { start: 89, end: 90 },
            Section { start: 99, end: 100 },
        ]
    } else if i == 1 {
        seq![
            Section { start: 10, end: 13 },
            Section { start: 20, end: 23 },
            Section { start: 30, end: 35 },
        ]
    } else if i == 2 {
        seq![
            Section { start: 27, end: 28 },
            Section { start: 37, end: 38 },
            Section { start: 47, end: 49 },
            Section { start: 54, end: 59 },
            Section { start: 65, end: 69 },
            Section { start: 78, end: 79 },
        ]
    } else if i == 3 {
        seq![
            Section { start: 13, end: 19 },
            Section { start: 23, end: 27 },
            Section { start: 28, end: 29 },
            Section { start: 35, end: 36 },
            Section { start: 38, end: 39 },
        ]
    } else if i == 4 {
        seq![Section { start: 43, end: 45 }]
    } else if i == 5 {
        seq![Section { start: 36, end: 37 }, Section { start: 45, end: 47 }]
    } else if i == 6 {
        seq![
            Section { start: 40, end: 43 },
            Section { start: 50, end: 54 },
            Section { start: 60, end: 64 },
            Section { start: 70, end: 72 },
            Section { start: 80, end: 85 },
            Section { start: 90, end: 95 },
        ]
    } else if i == 7 {
        seq![Section { start: 72, end: 74 }]
    } else if i == 8 {
        seq![
            Section { start: 64, end: 65 },
            Section { start: 74, end: 78 },
            Section { start: 85, end: 89 },
            Section { start: 95, end: 98 },
        ]
    } else if i == 9 {
        seq![Section { start: 98, end: 99 }]
    } else {
        Seq::empty()
    }
}

/// A cell lies in template area `i` exactly when the template colors it `i`.
proof fn lemma_template_sections_contains(i: int, c: usize)
    requires
        0 <= i < 10,
    ensures
        flatten_sections(template_sections(i)).contains(c) <==> (c < 100
            && template_color_of(c as int) == i),
{
    lemma_sections_contains(template_sections(i), c);
    if i == 0 {
        let t = template_sections(0);
        if flatten_sections(t).contains(c) {
            let k = choose|k: int| 0 <= k < t.len() && (#[trigger] t[k]).start <= c
                < t[k].end;
            if k == 0 {
                assert(0 <= c < 10);
            } else if k == 1 {
                assert(19 <= c < 20);
            } else if k == 2 {
                assert(29 <= c < 30);
            } else if k == 3 {
                assert(39 <= c < 40);
            } else if k == 4 {
                assert(49 <= c < 50);
            } else if k == 5 {
                assert(59 <= c < 60);
            } else if k == 6 {
                assert(69 <= c < 70);
            } else if k == 7 {
                assert(79 <= c < 80);
            } else if k == 8 {
                assert(89 <= c < 90);
            } else if k == 9 {
                assert(99 <= c < 100);
            } else {
                assert(false);
            }
        }
        if c < 100 && template_color_of(c as int) == 0 {
            if 0 <= c < 10 {
                assert(t[0].start <= c < t[0].end);
            } else if c == 19 {
                assert(t[1].start <= c < t[1].end);
            } else if c == 29 {
                assert(t[2].start <= c < t[2].end);
            } else if c == 39 {
                assert(t[3].start <= c < t[3].end);
            } else if c == 49 {
                assert(t[4].start <= c < t[4].end);
            } else if c == 59 {
                assert(t[5].start <= c < t[5].end);
            } else if c == 69 {
                assert(t[6].start <= c < t[6].end);
            } else if c == 79 {
                assert(t[7].start <= c < t[7].end);
            } else if c == 89 {
                assert(t[8].start <= c < t[8].end);
            } else if c == 99 {
                assert(t[9].start <= c < t[9].end);
            } else {
                assert(false);
            }
            assert(flatten_sections(t).contains(c));
        }
    } else if i == 1 {
        let t = template_sections(1);
        if flatten_sections(t).contains(c) {
            let k = choose|k: int| 0 <= k < t.len() && (#[trigger] t[k]).start <= c
                < t[k].end;
            if k == 0 {
                assert(10 <= c < 13);
            } else if k == 1 {
                assert(20 <= c < 23);
            } else if k == 2 {
                assert(30 <= c < 35);
            } else {
                assert(false);
            }
        }
        if c < 100 && template_color_of(c as int) == 1 {
            if 10 <= c < 13 {
                assert(t[0].start <= c < t[0].end);
            } else if 20 <= c < 23 {
                assert(t[1].start <= c < t[1].end);
            } else if 30 <= c < 35 {
                assert(t[2].start <= c < t[2].end);
            } else {
                assert(false);
            }
            assert(flatten_sections(t).contains(c));
        }
    } else if i == 2 {
        let t = template_sections(2);
        if flatten_sections(t).contains(c) {
            let k = choose|k: int| 0 <= k < t.len() && (#[trigger] t[k]).start <= c
                < t[k].end;
            if k == 0 {
                assert(27 <= c < 28);
            } else if k == 1 {
                assert(37 <= c < 38);
            } else if k == 2 {
                assert(47 <= c < 49);
            } else if k == 3 {
                assert(54 <= c < 59);
            } else if k == 4 {
                assert(65 <= c < 69);
            } else if k == 5 {
                assert(78 <= c < 79);
            } else {
                assert(false);
            }
        }
        if c < 100 && template_color_of(c as int) == 2 {
            if c == 27 {
                assert(t[0].start <= c < t[0].end);
            } else if c == 37 {
                assert(t[1].start <= c < t[1].end);
            } else if 47 <= c < 49 {
                assert(t[2].start <= c < t[2].end);
            } else if 54 <= c < 59 {
                assert(t[3].start <= c < t[3].end);
            } else if 65 <= c < 69 {
                assert(t[4].start <= c < t[4].end);
            } else if c == 78 {
                assert(t[5].start <= c < t[5].end);
            } else {
                assert(false);
            }
            assert(flatten_sections(t).contains(c));
        }
    } else if i == 3 {
        let t = template_sections(3);
        if flatten_sections(t).contains(c) {
            let k = choose|k: int| 0 <= k < t.len() && (#[trigger] t[k]).start <= c
                < t[k].end;
            if k == 0 {
                assert(13 <= c < 19);
            } else if k == 1 {
                assert(23 <= c < 27);
            } else if k == 2 {
                assert(28 <= c < 29);
            } else if k == 3 {
                assert(35 <= c < 36);
            } else if k == 4 {
                assert(38 <= c < 39);
            } else {
                assert(false);
            }
        }
        if c < 100 && template_color_of(c as int) == 3 {
            if 13 <= c < 19 {
                assert(t[0].start <= c < t[0].end);
            } else if 23 <= c < 27 {
                assert(t[1].start <= c < t[1].end);
            } else if c == 28 {
                assert(t[2].start <= c < t[2].end);
            } else if c == 35 {
                assert(t[3].start <= c < t[3].end);
            } else if c == 38 {
                assert(t[4].start <= c < t[4].end);
            } else {
                assert(false);
            }
            assert(flatten_sections(t).contains(c));
        }
    } else if i == 4 {
        let t = template_sections(4);
        if flatten_sections(t).contains(c) {
            let k = choose|k: int| 0 <= k < t.len() && (#[trigger] t[k]).start <= c
                < t[k].end;
            if k == 0 {
                assert(43 <= c < 45);
            } else {
                assert(false);
            }
        }
        if c < 100 && template_color_of(c as int) == 4 {
            if 43 <= c < 45 {
                assert(t[0].start <= c < t[0].end);
            } else {
                assert(false);
            }
            assert(flatten_sections(t).contains(c));
        }
    } else if i == 5 {
        let t = template_sections(5);
        if flatten_sections(t).contains(c) {
            let k = choose|k: int| 0 <= k < t.len() && (#[trigger] t[k]).start <= c
                < t[k].end;
            if k == 0 {
                assert(36 <= c < 37);
            } else if k == 1 {
                assert(45 <= c < 47);
            } else {
                assert(false);
            }
        }
        if c < 100 && template_color_of(c as int) == 5 {
            if c == 36 {
                assert(t[0].start <= c < t[0].end);
            } else if 45 <= c < 47 {
                assert(t[1].start <= c < t[1].end);
            } else {
                assert(false);
            }
            assert(flatten_sections(t).contains(c));
        }
    } else if i == 6 {
        let t = template_sections(6);
        if flatten_sections(t).contains(c) {
            let k = choose|k: int| 0 <= k < t.len() && (#[trigger] t[k]).start <= c
                < t[k].end;
            if k == 0 {
                assert(40 <= c < 43);
            } else if k == 1 {
                assert(50 <= c < 54);
            } else if k == 2 {
                assert(60 <= c < 64);
            } else if k == 3 {
                assert(70 <= c < 72);
            } else if k == 4 {
                assert(80 <= c < 85);
            } else if k == 5 {
                assert(90 <= c < 95);
            } else {
                assert(false);
            }
        }
        if c < 100 && template_color_of(c as int) == 6 {
            if 40 <= c < 43 {
                assert(t[0].start <= c < t[0].end);
            } else if 50 <= c < 54 {
                assert(t[1].start <= c < t[1].end);
            } else if 60 <= c < 64 {
                assert(t[2].start <= c < t[2].end);
            } else if 70 <= c < 72 {
                assert(t[3].start <= c < t[3].end);
            } else if 80 <= c < 85 {
                assert(t[4].start <= c < t[4].end);
            } else if 90 <= c < 95 {
                assert(t[5].start <= c < t[5].end);
            } else {
                assert(false);
            }
            assert(flatten_sections(t).contains(c));
        }
    } else if i == 7 {
        let t = template_sections(7);
        if flatten_sections(t).contains(c) {
            let k = choose|k: int| 0 <= k < t.len() && (#[trigger] t[k]).start <= c
                < t[k].end;
            if k == 0 {
                assert(72 <= c < 74);
            } else {
                assert(false);
            }
        }
        if c < 100 && template_color_of(c as int) == 7 {
            if 72 <= c < 74 {
                assert(t[0].start <= c < t[0].end);
            } else {
                assert(false);
            }
            assert(flatten_sections(t).contains(c));
        }
    } else if i == 8 {
        let t = template_sections(8);
        if flatten_sections(t).contains(c) {
            let k = choose|k: int| 0 <= k < t.len() && (#[trigger] t[k]).start <= c
                < t[k].end;
            if k == 0 {
                assert(64 <= c < 65);
            } else if k == 1 {
                assert(74 <= c < 78);
            } else if k == 2 {
                assert(85 <= c < 89);
            } else if k == 3 {
                assert(95 <= c < 98);
            } else {
                assert(false);
            }
        }
        if c < 100 && template_color_of(c as int) == 8 {
            if c == 64 {
                assert(t[0].start <= c < t[0].end);
            } else if 74 <= c < 78 {
                assert(t[1].start <= c < t[1].end);
            } else if 85 <= c < 89 {
                assert(t[2].start <= c < t[2].end);
            } else if 95 <= c < 98 {
                assert(t[3].start <= c < t[3].end);
            } else {
                assert(false);
            }
            assert(flatten_sections(t).contains(c));
        }
    } else if i == 9 {
        let t = template_sections(9);
        if flatten_sections(t).contains(c) {
            let k = choose|k: int| 0 <= k < t.len() && (#[trigger] t[k]).start <= c
                < t[k].end;
            if k == 0 {
                assert(98 <= c < 99);
            } else {
                assert(false);
            }
        }
        if c < 100 && template_color_of(c as int) == 9 {
            if c == 98 {
                assert(t[0].start <= c < t[0].end);
            } else {
                assert(false);
            }
            assert(flatten_sections(t).contains(c));
        }
    }
}

/// A layout shaped like the template splits the board exactly: the
/// template's color map is total on the board and gives each cell one area.
pub proof fn lemma_template_partition(l: Layout)
    requires
        l.is_template_layout(),
    ensures
        l.is_partition(10),
{
    assert forall|i: int| 0 <= i < 10 implies (#[trigger] l.areas@[i].sections@.len())
        > 0 by {
        if i == 0 {
            assert(l.area_has(0, 0));
        } else if i == 1 {
            assert(l.area_has(1, 10));
        } else if i == 2 {
            assert(l.area_has(2, 27));
        } else if i == 3 {
            assert(l.area_has(3, 13));
        } else if i == 4 {
            assert(l.area_has(4, 43));
        } else if i == 5 {
            assert(l.area_has(5, 36));
        } else if i == 6 {
            assert(l.area_has(6, 40));
        } else if i == 7 {
            assert(l.area_has(7, 72));
        } else if i == 8 {
            assert(l.area_has(8, 64));
        } else if i == 9 {
            assert(l.area_has(9, 98));
        }
    }
    assert forall|c: usize| c < 100 implies #[trigger] l.covers(10, c) by {
        let i = template_color_of(c as int);
        assert(0 <= i < 10);
        assert(l.area_has(i, c));
    }
}
/// Easily solvable layout with n=10: area `i` is row `i` of the board.
pub fn easy_layout() -> (l: Layout)
    ensures
        l.is_partition(10),
        l.distinct_colors(),
        l.is_rows_layout(),
        l.areas_distinct(),
{
    let n: usize = 10;
    let mut res: Vec<Vec<Section>> = Vec::new();
    let mut i: usize = 0;
    while i < n
        invariant
            i <= n,
            n == 10,
            res@.len() == i,
            forall|i2: int|
                0 <= i2 < i ==> (#[trigger] res@[i2]@).len() == 1 && res@[i2]@[0].start == i2 * 10
                    && res@[i2]@[0].end == i2 * 10 + 10,
        decreases n - i,
    {
        let mut row: Vec<Section> = Vec::new();
        row.push(section(i * n, (i + 1) * n));
        res.push(row);
        i = i + 1;
    }

    let l = Layout::from_sections(res, n);
    proof {
        assert forall|i2: int, j: int| 0 <= i2 < 10 && 0 <= j < 10 implies (#[trigger] l.areas@[
            i2
        ].sections@[j]) == i2 * 10 + j by {
            let secs = res@[i2]@;
            assert(secs.drop_first() =~= Seq::<Section>::empty());
            assert(flatten_sections(secs.drop_first()) == Seq::<usize>::empty());
            assert(flatten_sections(secs) == secs[0].seq_of() + Seq::<usize>::empty());
            assert(secs[0].seq_of() + Seq::<usize>::empty() =~= secs[0].seq_of());
            assert(secs[0].seq_of().len() == 10);
            assert(secs[0].seq_of()[j] == i2 * 10 + j);
        }
        assert forall|i2: int| 0 <= i2 < 10 implies (#[trigger] l.areas@[i2]).sections@.len()
            == 10 by {
            let secs = res@[i2]@;
            assert(secs.drop_first() =~= Seq::<Section>::empty());
            assert(flatten_sections(secs.drop_first()) == Seq::<usize>::empty());
            assert(flatten_sections(secs) == secs[0].seq_of() + Seq::<usize>::empty());
            assert(secs[0].seq_of().len() == 10);
        }
        assert forall|i2: int, c: usize| 0 <= i2 < 10 && #[trigger] l.area_has(i2, c) implies c
            < 100 by {
            let k = choose|k: int|
                0 <= k < l.areas@[i2].sections@.len() && l.areas@[i2].sections@[k] == c;
            assert(l.areas@[i2].sections@[k] == i2 * 10 + k);
        }
        assert forall|c: usize| c < 100 implies #[trigger] l.covers(10, c) by {
            let i2 = c as int / 10;
            let j = c as int % 10;
            assert(l.areas@[i2].sections@[j] == c);
            assert(l.area_has(i2, c));
        }
        assert forall|i2: int, j2: int, c: usize|
            #![trigger l.area_has(i2, c), l.area_has(j2, c)]
            0 <= i2 < 10 && 0 <= j2 < 10 && l.area_has(i2, c) && l.area_has(j2, c) implies i2
            == j2 by {
            let k1 = choose|k: int|
                0 <= k < l.areas@[i2].sections@.len() && l.areas@[i2].sections@[k] == c;
            let k2 = choose|k: int|
                0 <= k < l.areas@[j2].sections@.len() && l.areas@[j2].sections@[k] == c;
            assert(c == i2 * 10 + k1);
            assert(c == j2 * 10 + k2);
        }
        assert forall|i2: int| 0 <= i2 < 10 implies (#[trigger] l.areas@[
            i2
        ]).sections@.no_duplicates() by {
            assert(forall|j1: int, j2: int|
                0 <= j1 < 10 && 0 <= j2 < 10 && j1 != j2 ==> (#[trigger] l.areas@[i2].sections@[
                    j1
                ]) != (#[trigger] l.areas@[i2].sections@[j2]));
        }
    }
    l
}

/// Hand-authored template layout with n=10, used as-is; every cell's area is
/// pinned by the template's color map.
pub fn complex_layout() -> (l: Layout)
    ensures
        l.is_partition(10),
        l.distinct_colors(),
        l.is_template_layout(),
        l.areas_distinct(),
{
    let n: usize = 10;

    let mut r1: Vec<Section> = Vec::new();
    r1.push(section(0, n));
    r1.push(section(n * 2 - 1, n * 2));
    r1.push(section(n * 3 - 1, n * 3));
    r1.push(section(n * 4 - 1, n * 4));
    r1.push(section(n * 5 - 1, n * 5));
    r1.push(section(n * 6 - 1, n * 6));
    r1.push(section(n * 7 - 1, n * 7));
    r1.push(section(n * 8 - 1, n * 8));
    r1.push(section(n * 9 - 1, n * 9));
    r1.push(section(n * n - 1, n * n));

    let mut r2: Vec<Section> = Vec::new();
    r2.push(section(n, n + 3));
    r2.push(section(n * 2, n * 2 + 3));
    r2.push(section(n * 3, n * 3 + 5));

    let mut r3: Vec<Section> = Vec::new();
    r3.push(section(n * 3 - 3, n * 3 - 2));
    r3.push(section(n * 4 - 3, n * 4 - 2));
    r3.push(section(n * 5 - 3, n * 5 - 1));
    r3.push(section(n * 6 - 6, n * 6 - 1));
    r3.push(section(n * 7 - 5, n * 7 - 1));
    r3.push(section(n * 8 - 2, n * 8 - 1));

    let mut r4: Vec<Section> = Vec::new();
    r4.push(section(n + 3, 2 * n - 1));
    r4.push(section(2 * n + 3, 3 * n - 3));
    r4.push(section(3 * n - 2, 3 * n - 1));
    r4.push(section(4 * n - 5, 4 * n - 4));
    r4.push(section(4 * n - 2, 4 * n - 1));

    let mut r5: Vec<Section> = Vec::new();
    r5.push(section(n * 4 + 3, n * 4 + 5));

    let mut r6: Vec<Section> = Vec::new();
    r6.push(section(n * 4 - 4, n * 4 - 3));
    r6.push(section(n * 4 + 5, n * 4 + 7));

    let mut r7: Vec<Section> = Vec::new();
    r7.push(section(n * 4, n * 4 + 3));
    r7.push(section(n * 5, n * 5 + 4));
    r7.push(section(n * 6, n * 6 + 4));
    r7.push(section(n * 7, n * 7 + 2));
    r7.push(section(n * 8, n * 8 + 5));
    r7.push(section(n * 9, n * 9 + 5));

    let mut r8: Vec<Section> = Vec::new();
    r8.push(section(n * 7 + 2, n * 7 + 4));

    let mut r9: Vec<Section> = Vec::new();
    r9.push(section(6 * n + 4, 6 * n + 5));
    r9.push(section(7 * n + 4, 7 * n + 8));
    r9.push(section(8 * n + 5, 8 * n + 9));
    r9.push(section(9 * n + 5, 9 * n + 8));

    let mut r10: Vec<Section> = Vec::new();
    r10.push(section(n * n - 2, n * n - 1));

    let mut all: Vec<Vec<Section>> = Vec::new();
    all.push(r1);
    all.push(r2);
    all.push(r3);
    all.push(r4);
    all.push(r5);
    all.push(r6);
    all.push(r7);
    all.push(r8);
    all.push(r9);
    all.push(r10);

    let l = Layout::from_sections(all, n);
    proof {
        assert forall|i: int| 0 <= i < 10 implies all@[i]@ == template_sections(i) by {
            if i == 0 {
                assert(all@[0]@ =~= template_sections(0));
            } else if i == 1 {
                assert(all@[1]@ =~= template_sections(1));
            } else if i == 2 {
                assert(all@[2]@ =~= template_sections(2));
            } else if i == 3 {
                assert(all@[3]@ =~= template_sections(3));
            } else if i == 4 {
                assert(all@[4]@ =~= template_sections(4));
            } else if i == 5 {
                assert(all@[5]@ =~= template_sections(5));
            } else if i == 6 {
                assert(all@[6]@ =~= template_sections(6));
            } else if i == 7 {
                assert(all@[7]@ =~= template_sections(7));
            } else if i == 8 {
                assert(all@[8]@ =~= template_sections(8));
            } else if i == 9 {
                assert(all@[9]@ =~= template_sections(9));
            } else {
            }
        }
        assert forall|i: int, c: usize|
            0 <= i < 10 implies ((#[trigger] l.area_has(i, c)) <==> (c < 100
            && template_color_of(c as int) == i)) by {
            lemma_template_sections_contains(i, c);
            assert(l.areas@[i].sections@ == flatten_sections(template_sections(i)));
        }
        assert(l.is_template_layout());
        lemma_template_partition(l);
        assert forall|i: int| 0 <= i < 10 implies (#[trigger] l.areas@[
            i
        ]).sections@.no_duplicates() by {
            if i == 0 {
                lemma_flatten_ordered_distinct(template_sections(0));
            } else if i == 1 {
                lemma_flatten_ordered_distinct(template_sections(1));
            } else if i == 2 {
                lemma_flatten_ordered_distinct(template_sections(2));
            } else if i == 3 {
                lemma_flatten_ordered_distinct(template_sections(3));
            } else if i == 4 {
                lemma_flatten_ordered_distinct(template_sections(4));
            } else if i == 5 {
                lemma_flatten_ordered_distinct(template_sections(5));
            } else if i == 6 {
                lemma_flatten_ordered_distinct(template_sections(6));
            } else if i == 7 {
                lemma_flatten_ordered_distinct(template_sections(7));
            } else if i == 8 {
                lemma_flatten_ordered_distinct(template_sections(8));
            } else if i == 9 {
                lemma_flatten_ordered_distinct(template_sections(9));
            } else {
            }
        }
    }
    l
}

} // verus!
