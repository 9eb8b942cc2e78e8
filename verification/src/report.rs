//! Everything a migration refuses to decide, grouped by section and rendered
//! as markdown for a human to review.
use vstd::prelude::*;

use crate::strings::{decimal, decimal_string, owned, push_str, str_eq, views};

verus! {

broadcast use vstd::string::group_string_axioms;

/// One section's view: its heading and its items, in the order added.
pub type SectionView = (Seq<char>, Seq<Seq<char>>);

/// Accumulates everything a migration refuses to decide, rendered as markdown.
#[derive(Debug)]
pub struct Report {
    sections: Vec<(String, Vec<String>)>,
}

pub open spec fn section_view(s: (String, Vec<String>)) -> SectionView {
    (s.0@, views(s.1@))
}

/// Total number of items over all sections.
pub open spec fn total_items(sections: Seq<SectionView>) -> nat
    decreases sections.len(),
{
    if sections.len() == 0 {
        0
    } else {
        total_items(sections.drop_last()) + sections.last().1.len()
    }
}

/// The index of the section with this heading, if any.
pub open spec fn section_index(sections: Seq<SectionView>, name: Seq<char>) -> Option<int> {
    if exists|i: int| 0 <= i < sections.len() && #[trigger] sections[i].0 == name {
        Some(choose|i: int| 0 <= i < sections.len() && #[trigger] sections[i].0 == name)
    } else {
        None
    }
}

/// Headings are distinct: an item for an existing section joins it.
pub open spec fn distinct_headings(sections: Seq<SectionView>) -> bool {
    forall|i: int, j: int|
        0 <= i < sections.len() && 0 <= j < sections.len() && i != j ==> #[trigger] sections[i].0
            != #[trigger] sections[j].0
}

/// The sections after adding `item` under `name`.
pub open spec fn added(sections: Seq<SectionView>, name: Seq<char>, item: Seq<char>) -> Seq<
    SectionView,
> {
    match section_index(sections, name) {
        Some(i) => sections.update(i, (name, sections[i].1.push(item))),
        None => sections.push((name, seq![item])),
    }
}

/// A section after adding each item in turn.
pub open spec fn added_all(sections: Seq<SectionView>, name: Seq<char>, items: Seq<Seq<char>>) -> Seq<SectionView>
    decreases items.len(),
{
    if items.len() == 0 {
        sections
    } else {
        added(added_all(sections, name, items.drop_last()), name, items.last())
    }
}

/// The report after filing each item in turn.
pub open spec fn filed(sections: Seq<SectionView>, items: Seq<(Seq<char>, Seq<char>)>) -> Seq<SectionView>
    decreases items.len(),
{
    if items.len() == 0 {
        sections
    } else {
        added(filed(sections, items.drop_last()), items.last().0, items.last().1)
    }
}

/// Filing items one by one raises the count by their number and keeps the
/// headings distinct.
pub proof fn lemma_filed(sections: Seq<SectionView>, items: Seq<(Seq<char>, Seq<char>)>)
    requires
        distinct_headings(sections),
    ensures
        total_items(filed(sections, items)) == total_items(sections) + items.len(),
        distinct_headings(filed(sections, items)),
    decreases items.len(),
{
    if items.len() > 0 {
        lemma_filed(sections, items.drop_last());
        lemma_add_counts_one(filed(sections, items.drop_last()), items.last().0, items.last().1);
    }
}

/// Report lines held apart from a report, as (section, item).
pub open spec fn note_views(v: Seq<(String, String)>) -> Seq<(Seq<char>, Seq<char>)> {
    v.map_values(|n: (String, String)| (n.0@, n.1@))
}

/// Adds a line to a list of report lines.
pub fn push_note(notes: &mut Vec<(String, String)>, section: &str, item: String)
    ensures
        note_views(final(notes)@) == note_views(old(notes)@).push((section@, item@)),
{
    let ghost before = note_views(notes@);
    notes.push((owned(section), item));
    assert(note_views(notes@) =~= before.push((section@, item@)));
}

/// Filing two lists in turn is filing them joined.
pub proof fn lemma_filed_concat(
    sections: Seq<SectionView>,
    a: Seq<(Seq<char>, Seq<char>)>,
    b: Seq<(Seq<char>, Seq<char>)>,
)
    ensures
        filed(filed(sections, a), b) == filed(sections, a + b),
    decreases b.len(),
{
    if b.len() > 0 {
        lemma_filed_concat(sections, a, b.drop_last());
        assert((a + b).drop_last() =~= a + b.drop_last());
        assert((a + b).last() == b.last());
    } else {
        assert(a + b =~= a);
    }
}

pub open spec fn view_of(v: Seq<(String, Vec<String>)>) -> Seq<SectionView> {
    v.map_values(|s: (String, Vec<String>)| section_view(s))
}

impl View for Report {
    type V = Seq<SectionView>;

    closed spec fn view(&self) -> Seq<SectionView> {
        view_of(self.sections@)
    }
}

proof fn lemma_total_update(s: Seq<SectionView>, i: int, v: SectionView)
    requires
        0 <= i < s.len(),
    ensures
        total_items(s.update(i, v)) == total_items(s) - s[i].1.len() + v.1.len(),
    decreases s.len(),
{
    if i < s.len() - 1 {
        lemma_total_update(s.drop_last(), i, v);
        assert(s.update(i, v).drop_last() == s.drop_last().update(i, v));
    } else {
        assert(s.update(i, v).drop_last() == s.drop_last());
    }
}

impl Default for Report {
    fn default() -> (r: Report)
        ensures
            r@ == Seq::<SectionView>::empty(),
    {
        Report::new()
    }
}

impl Report {
    #[verifier::type_invariant]
    pub(crate) open spec fn wf(self) -> bool {
        &&& distinct_headings(self@)
        &&& total_items(self@) <= usize::MAX
    }

    pub fn new() -> (r: Report)
        ensures
            r@ == Seq::<SectionView>::empty(),
    {
        let r = Report { sections: Vec::new() };
        assert(r@ == Seq::<SectionView>::empty());
        r
    }

    /// Adds an item under a section heading, opening the section if it is new.
    pub fn add(&mut self, section: &str, item: String)
        requires
            total_items(old(self)@) < usize::MAX,
        ensures
            final(self)@ == added(old(self)@, section@, item@),
    {
        proof {
            use_type_invariant(&*self);
            lemma_add_counts_one(self@, section@, item@);
        }
        let ghost before = self@;
        let ghost after = added(before, section@, item@);
        let mut sections: Vec<(String, Vec<String>)> = Vec::new();
        std::mem::swap(&mut sections, &mut self.sections);
        assert(view_of(sections@) == before);
        let mut i: usize = 0;
        while i < sections.len()
            invariant
                i <= sections@.len(),
                view_of(sections@) == before,
                before == old(self)@,
                distinct_headings(before),
                after == added(before, section@, item@),
                distinct_headings(after),
                total_items(after) == total_items(before) + 1,
                total_items(before) < usize::MAX,
                forall|k: int| 0 <= k < i ==> #[trigger] before[k].0 != section@,
            decreases sections@.len() - i,
        {
            if str_eq(sections[i].0.as_str(), section) {
                proof {
                    assert(before[i as int].0 == section@);
                    let j = section_index(before, section@)->Some_0;
                    assert(before[j].0 == section@);
                    assert(j == i);
                    assert(section_index(before, section@) == Some(i as int));
                }
                let ghost old_sections = sections@;
                let mut entry = sections.remove(i);
                let ghost old_items = entry.1@;
                assert(entry == old_sections[i as int]);
                entry.1.push(item);
                assert(views(entry.1@) =~= views(old_items).push(item@));
                assert(section_view(entry) == (section@, before[i as int].1.push(item@)));
                sections.insert(i, entry);
                proof {
                    assert(sections@ =~= old_sections.update(i as int, entry));
                    assert(after == before.update(i as int, (section@, before[i as int].1.push(item@))));
                    assert(view_of(sections@) =~= after);
                }
                self.sections = sections;
                return;
            }
            i = i + 1;
        }
        let mut items: Vec<String> = Vec::new();
        items.push(item);
        assert(views(items@) =~= seq![item@]);
        let ghost old_sections = sections@;
        let name = owned(section);
        sections.push((name, items));
        proof {
            assert(sections@ =~= old_sections.push((name, items)));
            assert(section_index(before, section@) is None);
            assert(view_of(sections@) =~= before.push((section@, seq![item@])));
        }
        self.sections = sections;
    }

    /// The report as markdown: a title heading, then each section with its
    /// item count and its items as a list.
    pub fn render(&self, title: &str) -> (out: String)
        ensures
            out@ == rendered(title@, self@),
    {
        let mut out = String::new();
        push_str(&mut out, "# ");
        push_str(&mut out, title);
        push_str(&mut out, "\n");
        if self.sections.len() == 0 {
            push_str(&mut out, "\nNothing to review.\n");
        }
        let ghost head = out@;
        assert(head == "# "@ + title@ + "\n"@ + (if self@.len() == 0 {
            "\nNothing to review.\n"@
        } else {
            Seq::empty()
        }));
        let mut i: usize = 0;
        while i < self.sections.len()
            invariant
                i <= self.sections@.len(),
                out@ == head + sections_text(self@.take(i as int)),
            decreases self.sections@.len() - i,
        {
            assert(self@.take(i + 1).drop_last() == self@.take(i as int));
            let name = &self.sections[i].0;
            let items = &self.sections[i].1;
            let ghost sec = self@[i as int];
            assert(sec == section_view(self.sections@[i as int]));
            let ghost before = out@;
            push_str(&mut out, "\n## ");
            push_str(&mut out, name.as_str());
            push_str(&mut out, " (");
            let count = decimal_string(items.len() as u64);
            push_str(&mut out, count.as_str());
            push_str(&mut out, ")\n\n");
            let ghost mid = out@;
            assert(mid == before + ("\n## "@ + sec.0 + " ("@ + decimal(sec.1.len()) + ")\n\n"@));
            let mut j: usize = 0;
            while j < items.len()
                invariant
                    j <= items@.len(),
                    sec.1 == views(items@),
                    out@ == mid + items_text(sec.1.take(j as int)),
                decreases items@.len() - j,
            {
                assert(sec.1.take(j + 1).drop_last() == sec.1.take(j as int));
                push_str(&mut out, "- ");
                push_str(&mut out, items[j].as_str());
                push_str(&mut out, "\n");
                j = j + 1;
            }
            assert(sec.1.take(sec.1.len() as int) == sec.1);
            assert(out@ == before + section_text(sec));
            i = i + 1;
        }
        assert(self@.take(self@.len() as int) == self@);
        out
    }

    /// Number of items over all sections.
    pub fn item_count(&self) -> (n: usize)
        ensures
            n == total_items(self@),
    {
        proof {
            use_type_invariant(self);
        }
        let mut n: usize = 0;
        let mut i: usize = 0;
        while i < self.sections.len()
            invariant
                i <= self.sections@.len(),
                n == total_items(self@.take(i as int)),
                total_items(self@) <= usize::MAX,
            decreases self.sections@.len() - i,
        {
            proof {
                assert(self@.take(i + 1).drop_last() == self@.take(i as int));
                lemma_total_prefix(self@, i + 1);
            }
            n = n + self.sections[i].1.len();
            i = i + 1;
        }
        assert(self@.take(self@.len() as int) == self@);
        n
    }
}

proof fn lemma_total_prefix(s: Seq<SectionView>, k: int)
    requires
        0 <= k <= s.len(),
    ensures
        total_items(s.take(k)) <= total_items(s),
    decreases s.len() - k,
{
    if k < s.len() {
        lemma_total_prefix(s, k + 1);
        assert(s.take(k + 1).drop_last() == s.take(k));
    } else {
        assert(s.take(k) == s);
    }
}

pub open spec fn items_text(items: Seq<Seq<char>>) -> Seq<char>
    decreases items.len(),
{
    if items.len() == 0 {
        Seq::empty()
    } else {
        items_text(items.drop_last()) + "- "@ + items.last() + "\n"@
    }
}

pub open spec fn section_text(s: SectionView) -> Seq<char> {
    "\n## "@ + s.0 + " ("@ + decimal(s.1.len()) + ")\n\n"@ + items_text(s.1)
}

pub open spec fn sections_text(sections: Seq<SectionView>) -> Seq<char>
    decreases sections.len(),
{
    if sections.len() == 0 {
        Seq::empty()
    } else {
        sections_text(sections.drop_last()) + section_text(sections.last())
    }
}

/// The markdown a report renders to under a title.
pub open spec fn rendered(title: Seq<char>, sections: Seq<SectionView>) -> Seq<char> {
    "# "@ + title + "\n"@ + (if sections.len() == 0 {
        "\nNothing to review.\n"@
    } else {
        Seq::empty()
    }) + sections_text(sections)
}

/// Adding an item raises the count by one and files it last in its section.
pub proof fn lemma_add_counts_one(sections: Seq<SectionView>, name: Seq<char>, item: Seq<char>)
    requires
        distinct_headings(sections),
    ensures
        total_items(added(sections, name, item)) == total_items(sections) + 1,
        distinct_headings(added(sections, name, item)),
        section_index(added(sections, name, item), name) matches Some(k) && added(
            sections,
            name,
            item,
        )[k].1.last() == item,
{
    match section_index(sections, name) {
        Some(i) => {
            lemma_total_update(sections, i, (name, sections[i].1.push(item)));
            let a = added(sections, name, item);
            assert(a[i].0 == name);
            let k = section_index(a, name)->Some_0;
            assert(k == i);
        },
        None => {
            let a = added(sections, name, item);
            assert(a.drop_last() == sections);
            assert(a[a.len() - 1].0 == name);
            let k = section_index(a, name)->Some_0;
            assert(k == a.len() - 1);
        },
    }
}

/// Adding items one by one raises the count by their number and keeps the
/// headings distinct.
pub proof fn lemma_added_all(sections: Seq<SectionView>, name: Seq<char>, items: Seq<Seq<char>>)
    requires
        distinct_headings(sections),
    ensures
        total_items(added_all(sections, name, items)) == total_items(sections) + items.len(),
        distinct_headings(added_all(sections, name, items)),
    decreases items.len(),
{
    if items.len() > 0 {
        lemma_added_all(sections, name, items.drop_last());
        lemma_add_counts_one(added_all(sections, name, items.drop_last()), name, items.last());
    }
}

} // verus!
