use vstd::prelude::*;

use core::cmp::Ordering;

use vstd::std_specs::cmp::PartialEqSpecImpl;
use vstd::std_specs::cmp::PartialOrdSpecImpl;

use crate::text::chars_of;
use crate::version::{GameVersion, PatchVersion, Version, VersionModel, section_text};

verus! {

/// Character order, shorter prefix first.
pub open spec fn lex_less(x: Seq<char>, y: Seq<char>) -> bool
    decreases x.len(),
{
    if x.len() == 0 || y.len() == 0 {
        x.len() == 0 && y.len() > 0
    } else if x[0] != y[0] {
        x[0] < y[0]
    } else {
        lex_less(x.drop_first(), y.drop_first())
    }
}

/// Sections order by length, then by their characters.
pub open spec fn section_less(x: Seq<char>, y: Seq<char>) -> bool {
    x.len() < y.len() || (x.len() == y.len() && lex_less(x, y))
}

/// Whether `a` comes before `b`: by year, month, day, part and revision, then a historic
/// version before an ordinary one, then by section.
pub open spec fn older(a: VersionModel, b: VersionModel) -> bool {
    if a.year != b.year {
        a.year < b.year
    } else if a.month != b.month {
        a.month < b.month
    } else if a.day != b.day {
        a.day < b.day
    } else if a.part != b.part {
        a.part < b.part
    } else if a.revision != b.revision {
        a.revision < b.revision
    } else if a.is_historic != b.is_historic {
        a.is_historic
    } else {
        section_less(section_text(a), section_text(b))
    }
}

/// Neither comes before the other.
pub open spec fn same_rank(a: VersionModel, b: VersionModel) -> bool {
    &&& a.year == b.year
    &&& a.month == b.month
    &&& a.day == b.day
    &&& a.part == b.part
    &&& a.revision == b.revision
    &&& a.is_historic == b.is_historic
    &&& section_text(a) == section_text(b)
}

pub open spec fn version_order(a: VersionModel, b: VersionModel) -> Ordering {
    if older(a, b) {
        Ordering::Less
    } else if older(b, a) {
        Ordering::Greater
    } else {
        Ordering::Equal
    }
}

pub proof fn lemma_lex_irreflexive(x: Seq<char>)
    ensures
        !lex_less(x, x),
    decreases x.len(),
{
    if x.len() > 0 {
        lemma_lex_irreflexive(x.drop_first());
    }
}

pub proof fn lemma_lex_transitive(x: Seq<char>, y: Seq<char>, z: Seq<char>)
    requires
        lex_less(x, y),
        lex_less(y, z),
    ensures
        lex_less(x, z),
    decreases x.len(),
{
    if x.len() > 0 && y.len() > 0 && z.len() > 0 && x[0] == y[0] && y[0] == z[0] {
        lemma_lex_transitive(x.drop_first(), y.drop_first(), z.drop_first());
    }
}

pub proof fn lemma_lex_total(x: Seq<char>, y: Seq<char>)
    ensures
        lex_less(x, y) || lex_less(y, x) || x == y,
    decreases x.len(),
{
    if x.len() > 0 && y.len() > 0 && x[0] == y[0] {
        lemma_lex_total(x.drop_first(), y.drop_first());
        if x.drop_first() == y.drop_first() {
            assert(x =~= seq![x[0]] + x.drop_first());
            assert(y =~= seq![y[0]] + y.drop_first());
        }
    } else if x.len() == 0 && y.len() == 0 {
        assert(x =~= y);
    }
}

pub proof fn lemma_lex_asymmetric(x: Seq<char>, y: Seq<char>)
    requires
        lex_less(x, y),
    ensures
        !lex_less(y, x),
    decreases x.len(),
{
    if x.len() > 0 && y.len() > 0 && x[0] == y[0] {
        lemma_lex_asymmetric(x.drop_first(), y.drop_first());
    }
}

/// No version comes before itself.
pub proof fn lemma_older_irreflexive(a: VersionModel)
    ensures
        !older(a, a),
{
    lemma_lex_irreflexive(section_text(a));
}

/// Of two versions equal in year, month, day, part and revision, the historic one comes
/// before the other, whatever their sections.
pub proof fn lemma_historic_first(a: VersionModel, b: VersionModel)
    requires
        a.year == b.year,
        a.month == b.month,
        a.day == b.day,
        a.part == b.part,
        a.revision == b.revision,
        a.is_historic,
        !b.is_historic,
    ensures
        older(a, b),
        !older(b, a),
{
}

/// A version of an earlier date, part or revision comes before a later one, historic or
/// not: year first, then month, day, part and revision.
pub proof fn lemma_older_by_numbers(a: VersionModel, b: VersionModel)
    requires
        a.year < b.year || (a.year == b.year && (a.month < b.month || (a.month == b.month && (a.day < b.day || (a.day
            == b.day && (a.part < b.part || (a.part == b.part && a.revision < b.revision))))))),
    ensures
        older(a, b),
        !older(b, a),
{
}

/// Coming before is transitive.
pub proof fn lemma_older_transitive(a: VersionModel, b: VersionModel, c: VersionModel)
    requires
        older(a, b),
        older(b, c),
    ensures
        older(a, c),
{
    let (x, y, z) = (section_text(a), section_text(b), section_text(c));
    if x.len() == y.len() && y.len() == z.len() && lex_less(x, y) && lex_less(y, z) {
        lemma_lex_transitive(x, y, z);
    }
}

/// Of two versions, one comes first, or they rank the same.
pub proof fn lemma_older_total(a: VersionModel, b: VersionModel)
    ensures
        older(a, b) || older(b, a) || same_rank(a, b),
        same_rank(a, b) ==> !older(a, b) && !older(b, a),
        older(a, b) ==> !older(b, a),
{
    let (x, y) = (section_text(a), section_text(b));
    lemma_lex_total(x, y);
    lemma_lex_irreflexive(x);
    if lex_less(x, y) {
        lemma_lex_asymmetric(x, y);
    }
    if lex_less(y, x) {
        lemma_lex_asymmetric(y, x);
    }
}

pub fn compare_chars(x: &[char], y: &[char]) -> (r: i8)
    ensures
        r < 0 <==> lex_less(x@, y@),
        r > 0 <==> lex_less(y@, x@),
        r == 0 <==> x@ == y@,
{
    let mut i: usize = 0;
    assert(x@.subrange(0, 0) =~= y@.subrange(0, 0));
    proof {
        lemma_lex_total(x@, y@);
        lemma_lex_irreflexive(x@);
        if lex_less(x@, y@) {
            lemma_lex_asymmetric(x@, y@);
        }
    }
    assert(x@.subrange(0, x.len() as int) =~= x@);
    assert(y@.subrange(0, y.len() as int) =~= y@);
    while i < x.len() && i < y.len() && x[i] == y[i]
        invariant
            i <= x.len(),
            i <= y.len(),
            x@.subrange(0, i as int) == y@.subrange(0, i as int),
            lex_less(x@, y@) == lex_less(x@.subrange(i as int, x.len() as int), y@.subrange(i as int, y.len() as int)),
            lex_less(y@, x@) == lex_less(y@.subrange(i as int, y.len() as int), x@.subrange(i as int, x.len() as int)),
        decreases x.len() - i,
    {
        proof {
            let xs = x@.subrange(i as int, x.len() as int);
            let ys = y@.subrange(i as int, y.len() as int);
            assert(xs.drop_first() =~= x@.subrange(i + 1, x.len() as int));
            assert(ys.drop_first() =~= y@.subrange(i + 1, y.len() as int));
            assert(x@.subrange(0, i + 1) =~= x@.subrange(0, i as int).push(x@[i as int]));
            assert(y@.subrange(0, i + 1) =~= y@.subrange(0, i as int).push(y@[i as int]));
        }
        i = i + 1;
    }
    let xs = vstd::slice::slice_subrange(x, i, x.len());
    let ys = vstd::slice::slice_subrange(y, i, y.len());
    if i == x.len() && i == y.len() {
        assert(x@ =~= x@.subrange(0, i as int));
        assert(y@ =~= y@.subrange(0, i as int));
        0
    } else if i == x.len() {
        assert(x@ != y@) by {
            assert(x@.len() != y@.len());
        }
        assert(xs@.len() == 0 && ys@.len() > 0);
        -1
    } else if i == y.len() {
        assert(x@.len() != y@.len());
        assert(ys@.len() == 0 && xs@.len() > 0);
        1
    } else {
        assert(x@[i as int] != y@[i as int]);
        assert(x@ != y@) by {
            assert(x@[i as int] != y@[i as int]);
        }
        assert(xs@[0] == x@[i as int]);
        assert(ys@[0] == y@[i as int]);
        if x[i] < y[i] {
            -1
        } else {
            1
        }
    }
}

impl Version {
    /// -1, 0 or 1 as `self` comes before, ranks with, or comes after `other`.
    pub fn compare(&self, other: &Version) -> (r: i8)
        ensures
            r < 0 <==> older(self@, other@),
            r > 0 <==> older(other@, self@),
            r == 0 <==> same_rank(self@, other@),
    {
        proof {
            lemma_older_total(self@, other@);
        }
        if self.year != other.year {
            return if self.year < other.year { -1 } else { 1 };
        }
        if self.month != other.month {
            return if self.month < other.month { -1 } else { 1 };
        }
        if self.day != other.day {
            return if self.day < other.day { -1 } else { 1 };
        }
        if self.part != other.part {
            return if self.part < other.part { -1 } else { 1 };
        }
        if self.revision != other.revision {
            return if self.revision < other.revision { -1 } else { 1 };
        }
        if self.is_historic != other.is_historic {
            return if self.is_historic { -1 } else { 1 };
        }
        let a = match &self.section {
            Some(s) => chars_of(s.as_str()),
            None => Vec::new(),
        };
        let b = match &other.section {
            Some(s) => chars_of(s.as_str()),
            None => Vec::new(),
        };
        assert(a@ == section_text(self@));
        assert(b@ == section_text(other@));
        if a.len() != b.len() {
            return if a.len() < b.len() { -1 } else { 1 };
        }
        compare_chars(a.as_slice(), b.as_slice())
    }

    fn rank_against(&self, other: &Version) -> (r: Ordering)
        ensures
            r == version_order(self@, other@),
    {
        let c = self.compare(other);
        if c < 0 {
            Ordering::Less
        } else if c > 0 {
            Ordering::Greater
        } else {
            Ordering::Equal
        }
    }

    fn same(&self, other: &Version) -> (r: bool)
        ensures
            r == (self@ == other@),
    {
        let sections = match (&self.section, &other.section) {
            (Some(a), Some(b)) => a.eq(b),
            (None, None) => true,
            _ => false,
        };
        self.year == other.year && self.month == other.month && self.day == other.day
            && self.part == other.part && self.revision == other.revision
            && self.is_historic == other.is_historic && sections
    }
}

impl PartialEq for Version {
    fn eq(&self, other: &Self) -> (r: bool) {
        self.same(other)
    }
}

impl PartialEqSpecImpl for Version {
    open spec fn obeys_eq_spec() -> bool {
        true
    }

    open spec fn eq_spec(&self, other: &Self) -> bool {
        self@ == other@
    }
}

impl PartialOrd for Version {
    fn partial_cmp(&self, other: &Self) -> (r: Option<Ordering>) {
        Some(self.rank_against(other))
    }
}

impl PartialOrdSpecImpl for Version {
    open spec fn obeys_partial_cmp_spec() -> bool {
        true
    }

    open spec fn partial_cmp_spec(&self, other: &Self) -> Option<Ordering> {
        Some(version_order(self@, other@))
    }
}

impl PartialEq for GameVersion {
    fn eq(&self, other: &Self) -> (r: bool) {
        self.0.same(&other.0)
    }
}

impl PartialEqSpecImpl for GameVersion {
    open spec fn obeys_eq_spec() -> bool {
        true
    }

    open spec fn eq_spec(&self, other: &Self) -> bool {
        self@ == other@
    }
}

impl PartialOrd for GameVersion {
    fn partial_cmp(&self, other: &Self) -> (r: Option<Ordering>) {
        Some(self.0.rank_against(&other.0))
    }
}

impl PartialOrdSpecImpl for GameVersion {
    open spec fn obeys_partial_cmp_spec() -> bool {
        true
    }

    open spec fn partial_cmp_spec(&self, other: &Self) -> Option<Ordering> {
        Some(version_order(self@, other@))
    }
}

impl PartialEq for PatchVersion {
    fn eq(&self, other: &Self) -> (r: bool) {
        self.0.same(&other.0)
    }
}

impl PartialEqSpecImpl for PatchVersion {
    open spec fn obeys_eq_spec() -> bool {
        true
    }

    open spec fn eq_spec(&self, other: &Self) -> bool {
        self@ == other@
    }
}

impl PartialOrd for PatchVersion {
    fn partial_cmp(&self, other: &Self) -> (r: Option<Ordering>) {
        Some(self.0.rank_against(&other.0))
    }
}

impl PartialOrdSpecImpl for PatchVersion {
    open spec fn obeys_partial_cmp_spec() -> bool {
        true
    }

    open spec fn partial_cmp_spec(&self, other: &Self) -> Option<Ordering> {
        Some(version_order(self@, other@))
    }
}

} // verus!
