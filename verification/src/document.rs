//! An INI document: sections, each named or the unnamed general section,
//! each holding its properties.
use vstd::prelude::*;
use crate::assoc::{
    assoc_map, assoc_remove, assoc_set, assoc_touch, find_key, lemma_assoc_index, lemma_assoc_map,
    lemma_assoc_remove, lemma_assoc_set, lemma_find_key, lemma_find_key_same_keys, unique_keys,
};
use crate::properties::Properties;
use crate::text::string_from_str;

verus! {

/// The sections of a document in order: each name with its pairs in order.
pub type Layout = Seq<(Option<Seq<char>>, Seq<(Seq<char>, Seq<char>)>)>;

/// What a document maps section names to: the properties of each section.
pub type SectionMap = Map<Option<Seq<char>>, Map<Seq<char>, Seq<char>>>;

/// The characters of an optional string.
pub open spec fn opt_view(o: Option<String>) -> Option<Seq<char>> {
    match o {
        Some(s) => Some(s@),
        None => None,
    }
}

/// The characters of an optional string slice.
pub open spec fn opt_str_view(o: Option<&str>) -> Option<Seq<char>> {
    match o {
        Some(s) => Some(s@),
        None => None,
    }
}

/// Each section name with the map its pairs denote.
pub open spec fn layout_sections(d: Layout) -> Seq<(Option<Seq<char>>, Map<Seq<char>, Seq<char>>)> {
    Seq::new(d.len(), |i: int| (d[i].0, assoc_map(d[i].1)))
}

/// The map from section names to properties that a layout denotes.
pub open spec fn layout_map(d: Layout) -> SectionMap {
    assoc_map(layout_sections(d))
}

/// No section name twice, and no key twice within a section.
pub open spec fn layout_valid(d: Layout) -> bool {
    &&& unique_keys(d)
    &&& forall|i: int| 0 <= i < d.len() ==> unique_keys(#[trigger] d[i].1)
}

/// The properties of section `n` in `m`, or none when there is no such section.
pub open spec fn section_of(m: SectionMap, n: Option<Seq<char>>) -> Map<Seq<char>, Seq<char>> {
    if m.dom().contains(n) {
        m[n]
    } else {
        Map::empty()
    }
}

/// The value of key `k` in section `n` of `m`, if both are there.
pub open spec fn lookup(m: SectionMap, n: Option<Seq<char>>, k: Seq<char>) -> Option<Seq<char>> {
    if section_of(m, n).dom().contains(k) {
        Some(section_of(m, n)[k])
    } else {
        None
    }
}

/// `m` with key `k` of section `n` set to `v` (the section added when missing).
pub open spec fn map_set(m: SectionMap, n: Option<Seq<char>>, k: Seq<char>, v: Seq<char>) -> SectionMap {
    m.insert(n, section_of(m, n).insert(k, v))
}

/// `m` without key `k` in section `n`.
pub open spec fn map_delete_key(m: SectionMap, n: Option<Seq<char>>, k: Seq<char>) -> SectionMap {
    if m.dom().contains(n) {
        m.insert(n, m[n].remove(k))
    } else {
        m
    }
}

/// `m` with section `n` there (added empty when missing).
pub open spec fn map_touch(m: SectionMap, n: Option<Seq<char>>) -> SectionMap {
    if m.dom().contains(n) {
        m
    } else {
        m.insert(n, Map::empty())
    }
}

/// Makes sure section `n` exists, adding it last and empty when it does not.
pub open spec fn layout_touch(d: Layout, n: Option<Seq<char>>) -> Layout {
    assoc_touch(d, n, Seq::empty())
}

/// Sets key `k` of section `n` to `v`, adding the section (last) when it is missing.
pub open spec fn layout_set(d: Layout, n: Option<Seq<char>>, k: Seq<char>, v: Seq<char>) -> Layout {
    let d1 = layout_touch(d, n);
    let i = find_key(d1, n);
    d1.update(i, (n, assoc_set(d1[i].1, k, v)))
}

/// Removes key `k` from section `n`, if both are there.
pub open spec fn layout_delete_key(d: Layout, n: Option<Seq<char>>, k: Seq<char>) -> Layout {
    let i = find_key(d, n);
    if i >= 0 {
        d.update(i, (n, assoc_remove(d[i].1, k)))
    } else {
        d
    }
}

pub proof fn lemma_layout_find(d: Layout, n: Option<Seq<char>>)
    ensures
        find_key(layout_sections(d), n) == find_key(d, n),
        unique_keys(d) ==> unique_keys(layout_sections(d)),
{
    lemma_find_key_same_keys(d, layout_sections(d), n);
}

/// What the map of a valid layout holds.
pub proof fn lemma_layout_map(d: Layout)
    requires
        unique_keys(d),
    ensures
        forall|n: Option<Seq<char>>| #[trigger]
            layout_map(d).dom().contains(n) <==> find_key(d, n) >= 0,
        forall|n: Option<Seq<char>>| #[trigger]
            layout_map(d).dom().contains(n) ==> layout_map(d)[n] == assoc_map(d[find_key(d, n)].1),
        layout_map(d).len() == d.len(),
        layout_map(d).dom().finite(),
{
    let vs = layout_sections(d);
    lemma_layout_find(d, None);
    lemma_assoc_map(vs);
    assert forall|n: Option<Seq<char>>| #[trigger]
        layout_map(d).dom().contains(n) <==> find_key(d, n) >= 0 by {
        lemma_layout_find(d, n);
    }
    assert forall|n: Option<Seq<char>>| #[trigger]
        layout_map(d).dom().contains(n) implies layout_map(d)[n] == assoc_map(d[find_key(d, n)].1) by {
        lemma_layout_find(d, n);
        lemma_find_key(d, n);
    }
}

/// Replacing the pairs of the section at `i` replaces its properties in the map.
pub proof fn lemma_layout_update(d: Layout, i: int, e: Seq<(Seq<char>, Seq<char>)>)
    requires
        unique_keys(d),
        0 <= i < d.len(),
    ensures
        unique_keys(d.update(i, (d[i].0, e))),
        layout_map(d.update(i, (d[i].0, e))) == layout_map(d).insert(d[i].0, assoc_map(e)),
        forall|n: Option<Seq<char>>| find_key(d.update(i, (d[i].0, e)), n) == find_key(d, n),
{
    let d2 = d.update(i, (d[i].0, e));
    let n = d[i].0;
    let vs = layout_sections(d);
    assert forall|m: Option<Seq<char>>| find_key(d2, m) == find_key(d, m) by {
        assert forall|j: int| 0 <= j < d.len() implies #[trigger] d[j].0 == d2[j].0 by {}
        lemma_find_key_same_keys(d, d2, m);
    }
    assert forall|j: int| 0 <= j < d.len() implies #[trigger] d[j].0 == d2[j].0 by {}
    lemma_find_key_same_keys(d, d2, n);
    lemma_layout_find(d, n);
    lemma_assoc_index(d, i);
    lemma_assoc_set(vs, n, assoc_map(e));
    assert(vs[i].0 == n);
    lemma_find_key(vs, n);
    assert(layout_sections(d2) =~= assoc_set(vs, n, assoc_map(e)));
}

/// Adding a section that is not there yet adds it to the map.
pub proof fn lemma_layout_push(d: Layout, n: Option<Seq<char>>, e: Seq<(Seq<char>, Seq<char>)>)
    requires
        unique_keys(d),
        find_key(d, n) == -1,
    ensures
        unique_keys(d.push((n, e))),
        layout_map(d.push((n, e))) == layout_map(d).insert(n, assoc_map(e)),
        find_key(d.push((n, e)), n) == d.len(),
{
    let d2 = d.push((n, e));
    let vs = layout_sections(d);
    lemma_find_key(d, n);
    assert(unique_keys(d2));
    lemma_layout_find(d, n);
    lemma_assoc_set(vs, n, assoc_map(e));
    assert(layout_sections(d2) =~= assoc_set(vs, n, assoc_map(e)));
}

/// Removing a section removes it from the map.
pub proof fn lemma_layout_remove(d: Layout, n: Option<Seq<char>>)
    requires
        unique_keys(d),
    ensures
        unique_keys(assoc_remove(d, n)),
        layout_map(assoc_remove(d, n)) == layout_map(d).remove(n),
{
    let d2 = assoc_remove(d, n);
    let vs = layout_sections(d);
    lemma_find_key(d, n);
    lemma_layout_find(d, n);
    lemma_assoc_remove(d, n);
    lemma_assoc_remove(vs, n);
    let i = find_key(d, n);
    if i >= 0 {
        assert(layout_sections(d2) =~= assoc_remove(vs, n));
    }
}

/// Setting a key keeps a layout valid, and sets it in the map.
pub proof fn lemma_layout_set(d: Layout, n: Option<Seq<char>>, k: Seq<char>, v: Seq<char>)
    requires
        unique_keys(d),
    ensures
        unique_keys(layout_set(d, n, k, v)),
        layout_map(layout_set(d, n, k, v)) == map_set(layout_map(d), n, k, v),
{
    lemma_find_key(d, n);
    lemma_layout_map(d);
    let d1 = layout_touch(d, n);
    if find_key(d, n) < 0 {
        lemma_layout_push(d, n, Seq::empty());
        assert(assoc_map(Seq::<(Seq<char>, Seq<char>)>::empty()) =~= Map::<
            Seq<char>,
            Seq<char>,
        >::empty());
    }
    lemma_find_key(d1, n);
    lemma_layout_map(d1);
    let i = find_key(d1, n);
    lemma_assoc_set(d1[i].1, k, v);
    lemma_layout_update(d1, i, assoc_set(d1[i].1, k, v));
    assert(layout_map(layout_set(d, n, k, v)) =~= map_set(layout_map(d), n, k, v));
}

/// Making sure a section exists keeps a layout valid.
pub proof fn lemma_layout_touch(d: Layout, n: Option<Seq<char>>)
    requires
        unique_keys(d),
    ensures
        unique_keys(layout_touch(d, n)),
        layout_map(layout_touch(d, n)) == map_touch(layout_map(d), n),
        find_key(layout_touch(d, n), n) >= 0,
        find_key(d, n) >= 0 ==> layout_touch(d, n) == d,
{
    lemma_find_key(d, n);
    lemma_layout_map(d);
    if find_key(d, n) < 0 {
        lemma_layout_push(d, n, Seq::empty());
        assert(assoc_map(Seq::<(Seq<char>, Seq<char>)>::empty()) =~= Map::<
            Seq<char>,
            Seq<char>,
        >::empty());
    }
}

/// A document: its sections in order, named ones and at most one unnamed
/// (general) section, each name at most once.
#[derive(Debug)]
pub struct Ini {
    names: Vec<Option<String>>,
    sections: Vec<Properties>,
}

impl Ini {
    #[verifier::type_invariant]
    spec fn inv(self) -> bool {
        &&& self.names@.len() == self.sections@.len()
        &&& forall|i: int, j: int|
            0 <= i < j < self.names@.len() ==> #[trigger] opt_view(self.names@[i]) != #[trigger] opt_view(
                self.names@[j],
            )
    }

    /// The sections in order, each with its pairs in order.
    pub closed spec fn contents(&self) -> Layout {
        Seq::new(self.names@.len(), |i: int| (opt_view(self.names@[i]), self.sections@[i].entries()))
    }

    /// The properties of the section at `i` (in the order of `contents()`).
    pub closed spec fn section_at(&self, i: int) -> Properties {
        self.sections@[i]
    }

    proof fn lemma_inv(self)
        requires
            self.inv(),
        ensures
            unique_keys(self.contents()),
            self.contents().len() == self.names@.len(),
            self.contents().len() == self.sections@.len(),
            forall|i: int|
                0 <= i < self.names@.len() ==> #[trigger] self.contents()[i].0 == opt_view(
                    self.names@[i],
                ),
            forall|i: int|
                0 <= i < self.names@.len() ==> #[trigger] self.contents()[i].1
                    == self.sections@[i].entries(),
    {
    }

    proof fn lemma_inv_back(names: Vec<Option<String>>, sections: Vec<Properties>)
        requires
            names@.len() == sections@.len(),
            unique_keys((Ini { names, sections }).contents()),
        ensures
            (Ini { names, sections }).inv(),
    {
        let d = Ini { names, sections };
        assert forall|i: int, j: int| 0 <= i < j < names@.len() implies #[trigger] opt_view(
            names@[i],
        ) != #[trigger] opt_view(names@[j]) by {
            assert(d.contents()[i].0 == opt_view(names@[i]));
            assert(d.contents()[j].0 == opt_view(names@[j]));
        }
    }
}

/// The optional name as an owned string.
fn name_string(section: Option<&str>) -> (r: Option<String>)
    ensures
        opt_view(r) == opt_str_view(section),
{
    match section {
        Some(s) => Some(string_from_str(s)),
        None => None,
    }
}

/// Whether two optional names are the same.
fn same_name(a: &Option<String>, b: &Option<String>) -> (r: bool)
    ensures
        r == (opt_view(*a) == opt_view(*b)),
{
    match (a, b) {
        (Some(x), Some(y)) => *x == *y,
        (None, None) => true,
        _ => false,
    }
}

impl Ini {
    /// Creates a document without sections.
    pub fn new() -> (r: Ini)
        ensures
            r.contents() == Layout::empty(),
            r@ == SectionMap::empty(),
    {
        let r = Ini { names: Vec::new(), sections: Vec::new() };
        assert(r.contents() =~= Layout::empty());
        assert(layout_sections(r.contents()) =~= Seq::empty());
        r
    }

    /// No section name occurs twice, and no key twice within a section, so the
    /// map has as many sections as the document. This walks the sections and
    /// changes nothing: every `Ini` keeps these facts.
    pub fn contents_are_valid(&self)
        ensures
            layout_valid(self.contents()),
            self@.len() == self.contents().len(),
    {
        proof {
            use_type_invariant(self);
            self.lemma_inv();
            lemma_layout_map(self.contents());
        }
        let mut i: usize = 0;
        while i < self.sections.len()
            invariant
                self.inv(),
                i <= self.sections@.len(),
                forall|j: int| 0 <= j < i ==> unique_keys(#[trigger] self.contents()[j].1),
            decreases self.sections@.len() - i,
        {
            self.sections[i].keys_are_distinct();
            proof {
                self.lemma_inv();
            }
            i = i + 1;
        }
        proof {
            self.lemma_inv();
        }
    }

    /// The position of section `name`, if there is one.
    fn find_section(&self, name: &Option<String>) -> (r: Option<usize>)
        ensures
            r matches Some(i) ==> i < self.contents().len() && find_key(self.contents(), opt_view(*name)) == i,
            r is None ==> find_key(self.contents(), opt_view(*name)) == -1,
            self.contents().len() == self.sections@.len(),
    {
        proof {
            use_type_invariant(self);
            self.lemma_inv();
            lemma_find_key(self.contents(), opt_view(*name));
        }
        let mut i: usize = 0;
        while i < self.names.len()
            invariant
                self.inv(),
                i <= self.names@.len(),
                forall|j: int| 0 <= j < i ==> self.contents()[j].0 != opt_view(*name),
            decreases self.names@.len() - i,
        {
            if same_name(&self.names[i], name) {
                proof {
                    self.lemma_inv();
                    assert(self.contents()[i as int].0 == opt_view(*name));
                    lemma_find_key(self.contents(), opt_view(*name));
                }
                return Some(i);
            }
            proof {
                self.lemma_inv();
            }
            i = i + 1;
        }
        None
    }

    /// Sets `key` to `value` in section `name`, adding the section (last) when it is missing.
    pub(crate) fn set_in(&mut self, name: Option<String>, key: String, value: String)
        ensures
            final(self).contents() == layout_set(old(self).contents(), opt_view(name), key@, value@),
            final(self)@ == map_set(old(self)@, opt_view(name), key@, value@),
    {
        let ghost d = self.contents();
        let ghost n = opt_view(name);
        proof {
            use_type_invariant(&*self);
            self.lemma_inv();
            lemma_layout_set(d, n, key@, value@);
            lemma_layout_touch(d, n);
            lemma_find_key(d, n);
        }
        let pos = self.find_section(&name);
        let mut taken = Ini::new();
        std::mem::swap(&mut taken, self);
        proof {
            use_type_invariant(&taken);
        }
        let Ini { names: mut names, sections: mut sections } = taken;
        let i: usize = match pos {
            Some(i) => i,
            None => {
                names.push(name);
                sections.push(Properties::new());
                names.len() - 1
            },
        };
        let ghost d1 = layout_touch(d, n);
        proof {
            let t = Ini { names, sections };
            assert(t.contents() =~= d1);
            lemma_find_key(d1, n);
            lemma_layout_touch(d, n);
        }
        let ghost before = sections@[i as int].entries();
        sections[i].insert(key, value);
        proof {
            let t = Ini { names, sections };
            assert(t.contents() =~= d1.update(i as int, (n, assoc_set(before, key@, value@))));
            Ini::lemma_inv_back(names, sections);
        }
        *self = Ini { names, sections };
    }

    /// Adds section `name`, which must be missing, last with properties `p`.
    fn push_section(&mut self, name: Option<String>, p: Properties)
        requires
            find_key(old(self).contents(), opt_view(name)) == -1,
        ensures
            final(self).contents() == old(self).contents().push((opt_view(name), p.entries())),
            find_key(final(self).contents(), opt_view(name)) == old(self).contents().len(),
            final(self).contents().len() == old(self).contents().len() + 1,
            final(self).section_at(old(self).contents().len() as int) == p,
    {
        let ghost d = self.contents();
        let ghost n = opt_view(name);
        proof {
            use_type_invariant(&*self);
            self.lemma_inv();
            lemma_layout_push(d, n, p.entries());
        }
        let mut taken = Ini::new();
        std::mem::swap(&mut taken, self);
        proof {
            use_type_invariant(&taken);
        }
        let Ini { names: mut names, sections: mut sections } = taken;
        names.push(name);
        sections.push(p);
        proof {
            let t = Ini { names, sections };
            assert(t.contents() =~= d.push((n, p.entries())));
            Ini::lemma_inv_back(names, sections);
        }
        *self = Ini { names, sections };
    }

    /// The properties of the section at `i`, to be changed in place.
    fn section_at_mut(&mut self, i: usize) -> (r: &mut Properties)
        requires
            i < old(self).contents().len(),
        ensures
            *r == old(self).section_at(i as int),
            final(self).contents() =~= old(self).contents().update(
                i as int,
                (old(self).contents()[i as int].0, final(r).entries()),
            ),
    {
        proof {
            use_type_invariant(&*self);
            self.lemma_inv();
        }
        &mut self.sections[i]
    }

    /// Makes sure section `name` exists, adding it last and empty when it does not,
    /// and returns its position.
    pub(crate) fn touch(&mut self, name: Option<String>) -> (r: usize)
        ensures
            final(self).contents() == layout_touch(old(self).contents(), opt_view(name)),
            r == find_key(final(self).contents(), opt_view(name)),
            r < final(self).contents().len(),
    {
        let ghost d = self.contents();
        let ghost n = opt_view(name);
        proof {
            use_type_invariant(&*self);
            self.lemma_inv();
            lemma_layout_touch(d, n);
            lemma_find_key(d, n);
        }
        let pos = self.find_section(&name);
        match pos {
            Some(i) => i,
            None => {
                let p = Properties::new();
                self.push_section(name, p);
                proof {
                    assert(p.entries() =~= Seq::<(Seq<char>, Seq<char>)>::empty());
                }
                let last: usize = self.names.len() - 1;
                proof {
                    use_type_invariant(&*self);
                }
                last
            },
        }
    }
}

/// A copy of an optional name.
fn copy_name(a: &Option<String>) -> (r: Option<String>)
    ensures
        opt_view(r) == opt_view(*a),
{
    match a {
        Some(s) => Some(s.clone()),
        None => None,
    }
}

impl Ini {
    /// Removes `key` from section `name`, if both are there, and returns its value.
    fn delete_in(&mut self, name: &Option<String>, key: &str) -> (r: Option<String>)
        ensures
            final(self).contents() == layout_delete_key(old(self).contents(), opt_view(*name), key@),
            final(self)@ == map_delete_key(old(self)@, opt_view(*name), key@),
            r is Some <==> section_of(old(self)@, opt_view(*name)).dom().contains(key@),
            r matches Some(v) ==> v@ == section_of(old(self)@, opt_view(*name))[key@],
    {
        let ghost d = self.contents();
        let ghost n = opt_view(*name);
        proof {
            use_type_invariant(&*self);
            self.lemma_inv();
            lemma_layout_map(d);
            lemma_find_key(d, n);
        }
        match self.find_section(name) {
            None => None,
            Some(i) => {
                let mut taken = Ini::new();
                std::mem::swap(&mut taken, self);
                proof {
                    use_type_invariant(&taken);
                }
                let Ini { names: mut names, sections: mut sections } = taken;
                let ghost before = sections@[i as int];
                let r = sections[i].remove(key);
                proof {
                    let t = Ini { names, sections };
                    assert(t.contents() =~= d.update(i as int, (n, assoc_remove(before.entries(), key@))));
                    lemma_layout_update(d, i as int, assoc_remove(before.entries(), key@));
                    Ini::lemma_inv_back(names, sections);
                }
                *self = Ini { names, sections };
                r
            },
        }
    }

    /// Sets properties of section `section` through the returned setter.
    pub fn with_section(&mut self, section: Option<&str>) -> (r: SectionSetter<'_>)
        ensures
            *r.ini == *old(self),
            *final(self) == *final(r.ini),
            opt_view(r.section_name) == opt_str_view(section),
    {
        SectionSetter::new(self, name_string(section))
    }

    /// The general (unnamed) section; there must be one.
    pub fn general_section(&self) -> (r: &Properties)
        requires
            self@.dom().contains(None),
        ensures
            r@ == self@[None],
            r.entries() == self.contents()[find_key(self.contents(), None)].1,
    {
        match self.section(None) {
            Some(p) => p,
            None => {
                proof {
                    assert(false);
                }
                &self.sections[0]
            },
        }
    }

    /// The general (unnamed) section, to be changed in place; there must be one.
    pub fn general_section_mut(&mut self) -> (r: &mut Properties)
        requires
            old(self)@.dom().contains(None),
        ensures
            *r == old(self).section_at(find_key(old(self).contents(), None)),
            r@ == old(self)@[None],
            final(self).contents() == old(self).contents().update(
                find_key(old(self).contents(), None),
                (None, final(r).entries()),
            ),
    {
        self.index_mut(None)
    }

    /// The properties of section `name`, if there is one.
    pub fn section(&self, name: Option<&str>) -> (r: Option<&Properties>)
        ensures
            r is Some <==> self@.dom().contains(opt_str_view(name)),
            r is Some <==> find_key(self.contents(), opt_str_view(name)) >= 0,
            r matches Some(p) ==> {
                &&& p@ == self@[opt_str_view(name)]
                &&& p.entries() == self.contents()[find_key(self.contents(), opt_str_view(name))].1
            },
    {
        proof {
            use_type_invariant(self);
            self.lemma_inv();
            lemma_layout_map(self.contents());
        }
        let n = name_string(name);
        match self.find_section(&n) {
            Some(i) => {
                proof {
                    assert(self.contents()[i as int].1 == self.sections@[i as int].entries());
                    assert(self@.dom().contains(opt_view(n)));
                }
                Some(&self.sections[i])
            },
            None => None,
        }
    }

    /// The properties of section `name`, to be changed in place, if there is one.
    pub fn section_mut(&mut self, name: Option<&str>) -> (r: Option<&mut Properties>)
        ensures
            r is Some <==> old(self)@.dom().contains(opt_str_view(name)),
            r matches Some(p) ==> {
                &&& *p == old(self).section_at(find_key(old(self).contents(), opt_str_view(name)))
                &&& p@ =~= old(self)@[opt_str_view(name)]
                &&& final(self).contents() =~= old(self).contents().update(
                    find_key(old(self).contents(), opt_str_view(name)),
                    (opt_str_view(name), final(p).entries()),
                )
            },
            r is None ==> final(self).contents() == old(self).contents(),
    {
        proof {
            use_type_invariant(&*self);
            self.lemma_inv();
            lemma_layout_map(self.contents());
        }
        let n = name_string(name);
        match self.find_section(&n) {
            Some(i) => {
                proof {
                    lemma_find_key(self.contents(), opt_str_view(name));
                    assert(self.contents()[i as int].1 == self.sections@[i as int].entries());
                    assert(self@.dom().contains(opt_str_view(name)));
                    assert(self.sections@[i as int]@ == self@[opt_str_view(name)]);
                }
                Some(&mut self.sections[i])
            },
            None => None,
        }
    }

    /// The properties of section `name`; there must be such a section.
    pub fn index(&self, name: Option<&str>) -> (r: &Properties)
        requires
            self@.dom().contains(opt_str_view(name)),
        ensures
            r@ == self@[opt_str_view(name)],
            r.entries() == self.contents()[find_key(self.contents(), opt_str_view(name))].1,
    {
        match self.section(name) {
            Some(p) => p,
            None => {
                proof {
                    assert(false);
                }
                &self.sections[0]
            },
        }
    }

    /// The properties of section `name`, to be changed in place; there must be such a section.
    pub fn index_mut(&mut self, name: Option<&str>) -> (r: &mut Properties)
        requires
            old(self)@.dom().contains(opt_str_view(name)),
        ensures
            *r == old(self).section_at(find_key(old(self).contents(), opt_str_view(name))),
            r@ == old(self)@[opt_str_view(name)],
            final(self).contents() == old(self).contents().update(
                find_key(old(self).contents(), opt_str_view(name)),
                (opt_str_view(name), final(r).entries()),
            ),
    {
        proof {
            use_type_invariant(&*self);
            self.lemma_inv();
            lemma_layout_map(self.contents());
            lemma_find_key(self.contents(), opt_str_view(name));
        }
        let n = name_string(name);
        let i: usize = match self.find_section(&n) {
            Some(i) => i,
            None => {
                proof {
                    assert(false);
                }
                0
            },
        };
        &mut self.sections[i]
    }

    /// Removes every section.
    pub fn clear(&mut self)
        ensures
            final(self).contents() == Layout::empty(),
            final(self)@ == SectionMap::empty(),
    {
        *self = Ini::new();
    }

    /// The names of the sections, in order.
    pub fn sections(&self) -> (r: Vec<Option<String>>)
        ensures
            r@.len() == self.contents().len(),
            forall|i: int| 0 <= i < r@.len() ==> #[trigger] opt_view(r@[i]) == self.contents()[i].0,
            r@.len() == self@.len(),
            forall|i: int, j: int|
                0 <= i < j < r@.len() ==> #[trigger] opt_view(r@[i]) != #[trigger] opt_view(r@[j]),
            forall|n: Option<Seq<char>>| #[trigger]
                self@.dom().contains(n) <==> exists|i: int| 0 <= i < r@.len() && #[trigger] opt_view(r@[i]) == n,
    {
        proof {
            use_type_invariant(self);
            self.lemma_inv();
        }
        let mut r: Vec<Option<String>> = Vec::new();
        let mut i: usize = 0;
        while i < self.names.len()
            invariant
                self.inv(),
                i <= self.names@.len(),
                r@.len() == i,
                forall|j: int| 0 <= j < i ==> #[trigger] opt_view(r@[j]) == opt_view(self.names@[j]),
            decreases self.names@.len() - i,
        {
            r.push(copy_name(&self.names[i]));
            i = i + 1;
        }
        self.contents_are_valid();
        proof {
            let d = self.contents();
            self.lemma_inv();
            lemma_layout_map(d);
            assert forall|i: int| 0 <= i < r@.len() implies #[trigger] opt_view(r@[i]) == d[i].0 by {}
            assert forall|n: Option<Seq<char>>| #[trigger]
                self@.dom().contains(n) <==> exists|i: int| 0 <= i < r@.len() && #[trigger] opt_view(r@[i]) == n by {
                lemma_find_key(d, n);
                let k = find_key(d, n);
                if k >= 0 {
                    assert(opt_view(r@[k]) == n);
                }
                if exists|i: int| 0 <= i < r@.len() && #[trigger] opt_view(r@[i]) == n {
                    let i = choose|i: int| 0 <= i < r@.len() && #[trigger] opt_view(r@[i]) == n;
                    assert(d[i].0 == n);
                }
            }
        }
        r
    }

    /// Sets `key` to `value` in section `section`, adding the section (last) when it is missing.
    pub fn set_to(&mut self, section: Option<&str>, key: &str, value: &str)
        ensures
            final(self).contents() == layout_set(
                old(self).contents(),
                opt_str_view(section),
                key@,
                value@,
            ),
            final(self)@ == map_set(old(self)@, opt_str_view(section), key@, value@),
    {
        self.with_section(section).set(key, value);
    }

    /// The value of `key` in section `section`, if both are there.
    pub fn get_from(&self, section: Option<&str>, key: &str) -> (r: Option<&str>)
        ensures
            r is Some <==> section_of(self@, opt_str_view(section)).dom().contains(key@),
            r matches Some(v) ==> v@ == section_of(self@, opt_str_view(section))[key@],
            opt_str_view(r) == lookup(self@, opt_str_view(section), key@),
    {
        match self.section(section) {
            None => None,
            Some(p) => p.get(key),
        }
    }

    /// The value of `key` in section `section`, or `default` when either is missing.
    pub fn get_from_or<'a>(&'a self, section: Option<&str>, key: &str, default: &'a str) -> (r: &'a str)
        ensures
            r@ == (match lookup(self@, opt_str_view(section), key@) {
                Some(v) => v,
                None => default@,
            }),
    {
        match self.section(section) {
            None => default,
            Some(p) => match p.get(key) {
                Some(v) => v,
                None => default,
            },
        }
    }

    /// The value of `key` in section `section`, to be changed in place, if both are there.
    pub fn get_from_mut(&mut self, section: Option<&str>, key: &str) -> (r: Option<&mut String>)
        ensures
            r is Some <==> section_of(old(self)@, opt_str_view(section)).dom().contains(key@),
            r matches Some(v) ==> {
                let i = find_key(old(self).contents(), opt_str_view(section));
                let e = old(self).contents()[i].1;
                &&& v@ == section_of(old(self)@, opt_str_view(section))[key@]
                &&& final(self).contents() == old(self).contents().update(
                    i,
                    (opt_str_view(section), e.update(find_key(e, key@), (key@, final(v)@))),
                )
            },
            r is None ==> final(self).contents() == old(self).contents(),
    {
        proof {
            use_type_invariant(&*self);
            self.lemma_inv();
            lemma_layout_map(self.contents());
            lemma_find_key(self.contents(), opt_str_view(section));
        }
        let n = name_string(section);
        match self.find_section(&n) {
            None => None,
            Some(i) => {
                let p = &mut self.sections[i];
                p.get_mut(key)
            },
        }
    }

    /// Removes section `section` and returns its properties, if it was there.
    pub fn delete(&mut self, section: Option<&str>) -> (r: Option<Properties>)
        ensures
            final(self).contents() == assoc_remove(old(self).contents(), opt_str_view(section)),
            final(self)@ == old(self)@.remove(opt_str_view(section)),
            r is Some <==> old(self)@.dom().contains(opt_str_view(section)),
            r matches Some(p) ==> p@ =~= old(self)@[opt_str_view(section)],
    {
        let ghost d = self.contents();
        let ghost n = opt_str_view(section);
        proof {
            use_type_invariant(&*self);
            self.lemma_inv();
            lemma_layout_map(d);
            lemma_find_key(d, n);
            lemma_layout_remove(d, n);
        }
        let name = name_string(section);
        match self.find_section(&name) {
            None => None,
            Some(i) => {
                let mut taken = Ini::new();
                std::mem::swap(&mut taken, self);
                proof {
                    use_type_invariant(&taken);
                }
                let Ini { names: mut names, sections: mut sections } = taken;
                names.remove(i);
                let p = sections.remove(i);
                proof {
                    assert(d[i as int].1 == p.entries());
                    assert(layout_map(d).dom().contains(n));
                    assert(p@ == layout_map(d)[n]);
                    let t = Ini { names, sections };
                    assert(t.contents() =~= d.remove(i as int));
                    Ini::lemma_inv_back(names, sections);
                }
                *self = Ini { names, sections };
                Some(p)
            },
        }
    }

    /// Removes `key` from section `section` and returns its value, if both were there.
    pub fn delete_from(&mut self, section: Option<&str>, key: &str) -> (r: Option<String>)
        ensures
            final(self).contents() == layout_delete_key(old(self).contents(), opt_str_view(section), key@),
            final(self)@ == map_delete_key(old(self)@, opt_str_view(section), key@),
            r is Some <==> section_of(old(self)@, opt_str_view(section)).dom().contains(key@),
            r matches Some(v) ==> v@ == section_of(old(self)@, opt_str_view(section))[key@],
    {
        let name = name_string(section);
        self.delete_in(&name, key)
    }
}

/// Sets and reads the properties of one section of a document.
pub struct SectionSetter<'a> {
    /// The document.
    pub ini: &'a mut Ini,
    /// The section.
    pub section_name: Option<String>,
}

impl<'a> SectionSetter<'a> {
    fn new(ini: &'a mut Ini, section_name: Option<String>) -> (r: SectionSetter<'a>)
        ensures
            *r.ini == *old(ini),
            *final(ini) == *final(r.ini),
            r.section_name == section_name,
    {
        SectionSetter { ini, section_name }
    }

    /// Sets `key` to `value` in the section, adding the section (last) when it is missing.
    pub fn set(&mut self, key: &str, value: &str) -> (r: &mut SectionSetter<'a>)
        ensures
            r.ini.contents() == layout_set(
                old(self).ini.contents(),
                opt_view(old(self).section_name),
                key@,
                value@,
            ),
            r.ini@ == map_set(old(self).ini@, opt_view(old(self).section_name), key@, value@),
            r.section_name == old(self).section_name,
            *final(self) == *final(r),
            *final(old(self).ini) == *final(r.ini),
    {
        let name = copy_name(&self.section_name);
        self.ini.set_in(name, string_from_str(key), string_from_str(value));
        self
    }

    /// Removes `key` from the section, if both are there.
    pub fn delete(&mut self, key: &str) -> (r: &mut SectionSetter<'a>)
        ensures
            r.ini.contents() == layout_delete_key(
                old(self).ini.contents(),
                opt_view(old(self).section_name),
                key@,
            ),
            r.ini@ == map_delete_key(old(self).ini@, opt_view(old(self).section_name), key@),
            r.section_name == old(self).section_name,
            *final(self) == *final(r),
            *final(old(self).ini) == *final(r.ini),
    {
        let _ = self.ini.delete_in(&self.section_name, key);
        self
    }

    /// The value of `key` in the section, if it is there; the section is added
    /// (last, empty) when it is missing.
    pub fn get(&mut self, key: &str) -> (r: Option<&str>)
        ensures
            final(self).ini.contents() == layout_touch(
                old(self).ini.contents(),
                opt_view(old(self).section_name),
            ),
            final(self).ini@ == map_touch(old(self).ini@, opt_view(old(self).section_name)),
            final(self).section_name == old(self).section_name,
            *final(old(self).ini) == *final(final(self).ini),
            opt_str_view(r) == lookup(old(self).ini@, opt_view(old(self).section_name), key@),
            r is Some <==> section_of(old(self).ini@, opt_view(old(self).section_name)).dom().contains(key@),
            r matches Some(v) ==> v@ == section_of(old(self).ini@, opt_view(old(self).section_name))[key@],
    {
        let ghost d = self.ini.contents();
        let ghost n = opt_view(self.section_name);
        proof {
            use_type_invariant(&*self.ini);
            self.ini.lemma_inv();
            lemma_layout_map(d);
            lemma_layout_touch(d, n);
            lemma_find_key(d, n);
            assert(assoc_map(Seq::<(Seq<char>, Seq<char>)>::empty()) =~= Map::<
                Seq<char>,
                Seq<char>,
            >::empty());
        }
        let name = copy_name(&self.section_name);
        let i: usize = self.ini.touch(name);
        let ini: &Ini = &*self.ini;
        proof {
            use_type_invariant(ini);
            ini.lemma_inv();
            lemma_find_key(ini.contents(), n);
            assert(ini.contents()[i as int].1 == ini.sections@[i as int].entries());
        }
        let p = &ini.sections[i];
        p.get(key)
    }
}

impl Ini {
    /// The entry of section `name`, which may or may not be there yet.
    pub fn entry(&mut self, name: Option<String>) -> (r: SectionEntry<'_>)
        ensures
            *r.ini == *old(self),
            *final(self) == *final(r.ini),
            r.name == name,
    {
        SectionEntry { ini: self, name }
    }

    /// Walks the sections in order.
    pub fn iter(&self) -> (r: SectionIterator<'_>)
        ensures
            *r.ini == *self,
            r.pos == 0,
            layout_valid(self.contents()),
            self@.len() == self.contents().len(),
    {
        self.contents_are_valid();
        SectionIterator { ini: self, pos: 0 }
    }

    /// Walks the sections in order, each to be changed in place.
    pub fn mut_iter(&mut self) -> (r: SectionMutIterator<'_>)
        ensures
            *r.ini == *old(self),
            *final(self) == *final(r.ini),
            r.pos == 0,
            layout_valid(old(self).contents()),
            old(self)@.len() == old(self).contents().len(),
    {
        self.contents_are_valid();
        SectionMutIterator { ini: self, pos: 0 }
    }
}

/// A section of a document that may or may not be there yet.
pub struct SectionEntry<'a> {
    /// The document.
    pub ini: &'a mut Ini,
    /// The section's name.
    pub name: Option<String>,
}

impl<'a> SectionEntry<'a> {
    /// The section's name.
    pub fn key(&self) -> (r: &Option<String>)
        ensures
            *r == self.name,
    {
        &self.name
    }

    /// Whether the section is there already.
    pub fn is_occupied(&self) -> (r: bool)
        ensures
            r == old(self.ini)@.dom().contains(opt_view(self.name)),
            r == (find_key(old(self.ini).contents(), opt_view(self.name)) >= 0),
    {
        let ini: &Ini = &*self.ini;
        proof {
            use_type_invariant(ini);
            ini.lemma_inv();
            lemma_layout_map(ini.contents());
        }
        ini.find_section(&self.name).is_some()
    }

    /// The section's properties, to be changed in place; a missing section is
    /// first added last with properties `default`.
    pub fn or_insert(self, default: Properties) -> (r: &'a mut Properties)
        ensures
            ({
                let d = old(self.ini).contents();
                let n = opt_view(self.name);
                let i = find_key(d, n);
                if i >= 0 {
                    &&& *r == old(self.ini).section_at(i)
                    &&& r.entries() == d[i].1
                    &&& old(self.ini)@.dom().contains(n)
                    &&& r@ == old(self.ini)@[n]
                    &&& final(self.ini).contents() =~= d.update(i, (n, final(r).entries()))
                } else {
                    &&& *r == default
                    &&& final(self.ini).contents() =~= d.push((n, final(r).entries()))
                }
            }),
    {
        let SectionEntry { ini, name } = self;
        let ghost d = ini.contents();
        let ghost n = opt_view(name);
        proof {
            use_type_invariant(&*ini);
            ini.lemma_inv();
            lemma_find_key(d, n);
            lemma_layout_map(d);
            if find_key(d, n) >= 0 {
                assert(ini@.dom().contains(n));
            }
        }
        let i: usize = match ini.find_section(&name) {
            Some(i) => i,
            None => {
                ini.push_section(name, default);
                proof {
                    use_type_invariant(&*ini);
                    ini.lemma_inv();
                }
                ini.names.len() - 1
            },
        };
        ini.section_at_mut(i)
    }
}

/// Walks the sections of a document in order.
pub struct SectionIterator<'a> {
    /// The document.
    pub ini: &'a Ini,
    /// The position of the next section.
    pub pos: usize,
}

impl<'a> SectionIterator<'a> {
    /// The next section's name and properties, if there is a next one.
    pub fn next(&mut self) -> (r: Option<(&'a Option<String>, &'a Properties)>)
        ensures
            final(self).ini == old(self).ini,
            old(self).pos < old(self).ini.contents().len() ==> {
                &&& r matches Some(x)
                &&& opt_view(*x.0) == old(self).ini.contents()[old(self).pos as int].0
                &&& x.1.entries() == old(self).ini.contents()[old(self).pos as int].1
                &&& old(self).ini@.dom().contains(old(self).ini.contents()[old(self).pos as int].0)
                &&& x.1@ == old(self).ini@[old(self).ini.contents()[old(self).pos as int].0]
                &&& final(self).pos == old(self).pos + 1
            },
            old(self).pos >= old(self).ini.contents().len() ==> r is None && final(self).pos == old(self).pos,
    {
        let ini: &'a Ini = self.ini;
        proof {
            use_type_invariant(ini);
            ini.lemma_inv();
            let d = ini.contents();
            lemma_layout_map(d);
            if self.pos < d.len() {
                lemma_find_key(d, d[self.pos as int].0);
                assert(ini@.dom().contains(d[self.pos as int].0));
            }
        }
        let i: usize = self.pos;
        if i < ini.names.len() {
            self.pos = i + 1;
            Some((&ini.names[i], &ini.sections[i]))
        } else {
            None
        }
    }
}

/// Walks the sections of a document in order, lending each to be changed in place.
pub struct SectionMutIterator<'a> {
    /// The document.
    pub ini: &'a mut Ini,
    /// The position of the next section.
    pub pos: usize,
}

impl<'a> SectionMutIterator<'a> {
    /// The next section's name, and its properties to be changed in place, if there is a next one.
    pub fn next(&mut self) -> (r: Option<(&Option<String>, &mut Properties)>)
        ensures
            *final(old(self).ini) == *final(final(self).ini),
            old(self).pos < old(self).ini.contents().len() ==> {
                let i = old(self).pos as int;
                let d = old(self).ini.contents();
                &&& r matches Some(x)
                &&& opt_view(*x.0) == d[i].0
                &&& *x.1 == old(self).ini.section_at(i)
                &&& x.1.entries() == d[i].1
                &&& old(self).ini@.dom().contains(d[i].0)
                &&& x.1@ == old(self).ini@[d[i].0]
                &&& final(self).ini.contents() =~= d.update(i, (d[i].0, final(x.1).entries()))
                &&& final(self).pos == old(self).pos + 1
            },
            old(self).pos >= old(self).ini.contents().len() ==> {
                &&& r is None
                &&& final(self).pos == old(self).pos
                &&& final(self).ini.contents() == old(self).ini.contents()
            },
    {
        proof {
            use_type_invariant(&*self.ini);
            self.ini.lemma_inv();
            let d = self.ini.contents();
            lemma_layout_map(d);
            if self.pos < d.len() {
                lemma_find_key(d, d[self.pos as int].0);
                assert(self.ini@.dom().contains(d[self.pos as int].0));
            }
        }
        let i: usize = self.pos;
        if i < self.ini.names.len() {
            self.pos = i + 1;
            let ini: &mut Ini = &mut *self.ini;
            Some((&ini.names[i], &mut ini.sections[i]))
        } else {
            None
        }
    }
}

impl View for Ini {
    type V = SectionMap;

    /// The map from section names to their properties.
    open spec fn view(&self) -> SectionMap {
        layout_map(self.contents())
    }
}

} // verus!
