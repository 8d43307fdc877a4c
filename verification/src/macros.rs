//! Installed macros and their placement on cues.
//!
//! The macro catalog is read from the workstation's macro document; macro
//! actions are then added at cue indices supplied by the renderer. Every
//! index is checked before any cue changes.
use vstd::prelude::*;
use crate::playlist::hyphenated_uuid;
use crate::document::{
    Action, ActionData, CollectionElementType, Cue, Presentation, ACTION_TYPE_MACRO,
};
use crate::text::{
    char_seq_le, chars_of, is_permutation_of_range, is_stable_key_order, lemma_permutation_covers_range,
    stable_key_order, str_eq,
    to_lowercase, unicode_lowercase,
};

verus! {

/// One macro definition of a macro document.
pub struct MacroDefinition {
    /// Macro identity.
    pub uuid: Option<String>,
    /// Installed name.
    pub name: String,
}

/// One entry of a macro collection.
pub enum MacroCollectionItem {
    /// A member macro, by identity.
    MacroId(String),
    /// Any other entry.
    Other,
}

/// A named collection of macros.
pub struct MacroCollection {
    /// Collection identity.
    pub uuid: Option<String>,
    /// Collection name.
    pub name: String,
    /// Entries in order.
    pub items: Vec<MacroCollectionItem>,
}

/// The decoded macro document of a workstation.
pub struct MacrosDocument {
    /// Macro definitions in order.
    pub macros: Vec<MacroDefinition>,
    /// Macro collections in order.
    pub macro_collections: Vec<MacroCollection>,
}

/// A macro document that cannot serve as a catalog.
#[derive(Debug, PartialEq, Eq)]
pub enum MacroDocumentError {
    /// Two installed macros have names that differ only by case.
    DuplicateName {
        /// First installed spelling.
        first: String,
        /// Conflicting installed spelling.
        duplicate: String,
    },
}

/// Failure to apply a configured macro at rendered cue boundaries.
#[derive(Debug, PartialEq, Eq)]
pub enum MacroApplyError {
    /// The requested macro is not installed.
    Unavailable(String),
    /// Render metadata referenced a cue that is not in its presentation.
    CueUnavailable {
        /// Invalid cue index.
        index: usize,
        /// Number of cues in the presentation.
        cue_count: usize,
    },
    /// The presentation has no operator-visible cue on which a macro can run.
    MissingOperatorCue,
    /// A configured native region could not be resolved.
    RegionUnavailable {
        /// Zero-based configured region occurrence.
        region: usize,
        /// Selector that failed to resolve.
        selector: String,
    },
    /// A selected arrangement group had an unexpected exact native name.
    UnexpectedGroup {
        /// Zero-based configured region occurrence.
        region: usize,
        /// Zero-based selected-arrangement group occurrence.
        index: usize,
        /// Exact native group name found.
        actual: String,
        /// Exact native group names accepted.
        allowed: Vec<String>,
    },
    /// Two configured regions resolved to the same native cue.
    DuplicateRegionTarget {
        /// Cue index targeted more than once.
        cue_index: usize,
    },
}

// ---------------------------------------------------------------------------
// The catalog
// ---------------------------------------------------------------------------

/// Abstract catalog: installed name and native identification, per macro.
pub type CatalogView = Seq<(Seq<char>, CollectionElementType)>;

/// Installed names are pairwise distinct.
pub open spec fn catalog_names_distinct(c: CatalogView) -> bool {
    forall|i: int, j: int| 0 <= i < j < c.len() ==> #[trigger] c[i].0 != #[trigger] c[j].0
}

/// A well-formed catalog: distinct names, each identification carrying its
/// own installed name.
pub open spec fn catalog_wf(c: CatalogView) -> bool {
    &&& catalog_names_distinct(c)
    &&& forall|i: int| 0 <= i < c.len() ==> #[trigger] c[i].1.parameter_name@ == c[i].0
}

/// Cached installed macros, by exact name.
pub struct MacroCache {
    macros: Vec<(String, CollectionElementType)>,
}

impl MacroCache {
    #[verifier::type_invariant]
    spec fn well_formed(self) -> bool {
        catalog_wf(self@)
    }
}

impl View for MacroCache {
    type V = CatalogView;

    closed spec fn view(&self) -> CatalogView {
        self.macros@.map_values(|e: (String, CollectionElementType)| (e.0@, e.1))
    }
}

/// A definition that installs a macro: it has an identity and a name.
pub open spec fn installs(m: MacroDefinition) -> bool {
    m.uuid is Some && m.name@.len() > 0
}

/// The collection of `c` as a parent identification.
pub open spec fn collection_parent(c: MacroCollection) -> CollectionElementType {
    CollectionElementType { parameter_uuid: c.uuid, parameter_name: c.name, parent_collection: None }
}

/// Whether `c` lists the macro `id`.
pub open spec fn lists_macro(c: MacroCollection, id: Seq<char>) -> bool {
    exists|k: int|
        0 <= k < c.items@.len() && (#[trigger] c.items@[k] matches MacroCollectionItem::MacroId(x)
            && x@ == id)
}

/// The last collection listing macro `id`, as its parent.
pub open spec fn parent_of(cols: Seq<MacroCollection>, id: Seq<char>) -> Option<CollectionElementType>
    decreases cols.len(),
{
    if cols.len() == 0 {
        None
    } else if lists_macro(cols.last(), id) {
        Some(collection_parent(cols.last()))
    } else {
        parent_of(cols.drop_last(), id)
    }
}

/// The catalog entry a definition installs.
pub open spec fn installed_entry(cols: Seq<MacroCollection>, m: MacroDefinition) -> (
    Seq<char>,
    CollectionElementType,
) {
    let uuid = m.uuid->Some_0;
    (
        m.name@,
        CollectionElementType {
            parameter_uuid: Some(uuid),
            parameter_name: m.name,
            parent_collection: match parent_of(cols, uuid@) {
                Some(p) => Some(Box::new(p)),
                None => None,
            },
        },
    )
}

/// The catalog installed by definitions `ms`, in order.
pub open spec fn installed_catalog(cols: Seq<MacroCollection>, ms: Seq<MacroDefinition>) -> CatalogView
    decreases ms.len(),
{
    if ms.len() == 0 {
        Seq::empty()
    } else if installs(ms.last()) {
        installed_catalog(cols, ms.drop_last()).push(installed_entry(cols, ms.last()))
    } else {
        installed_catalog(cols, ms.drop_last())
    }
}

/// Definition `j` installs a name equal, ignoring case, to an earlier one.
pub open spec fn name_clash_at(ms: Seq<MacroDefinition>, j: int) -> bool {
    &&& installs(ms[j])
    &&& exists|i: int|
        0 <= i < j && installs(#[trigger] ms[i]) && unicode_lowercase(ms[i].name@)
            == unicode_lowercase(ms[j].name@)
}

/// The first clash is at definition `j`, between the spellings `first`
/// (of an earlier definition) and `duplicate` (of definition `j`).
pub open spec fn first_clash(ms: Seq<MacroDefinition>, j: int, first: Seq<char>, duplicate: Seq<char>) -> bool {
    &&& 0 <= j < ms.len()
    &&& forall|k: int| 0 <= k < j ==> !#[trigger] name_clash_at(ms, k)
    &&& name_clash_at(ms, j)
    &&& duplicate == ms[j].name@
    &&& exists|i: int|
        0 <= i < j && installs(#[trigger] ms[i]) && unicode_lowercase(ms[i].name@)
            == unicode_lowercase(ms[j].name@) && first == ms[i].name@
}

/// Position of the first occurrence of `name` among the catalog names.
pub open spec fn catalog_position(c: CatalogView, name: Seq<char>, i: int) -> bool {
    0 <= i < c.len() && c[i].0 == name
}

fn collection_lists(c: &MacroCollection, id: &str) -> (r: bool)
    ensures
        r == lists_macro(*c, id@),
{
    let mut k: usize = 0;
    while k < c.items.len()
        invariant
            k <= c.items.len(),
            forall|m: int|
                0 <= m < k ==> !(#[trigger] c.items@[m] matches MacroCollectionItem::MacroId(x)
                    && x@ == id@),
        decreases c.items.len() - k,
    {
        match &c.items[k] {
            MacroCollectionItem::MacroId(x) => {
                if str_eq(x.as_str(), id) {
                    return true;
                }
            },
            MacroCollectionItem::Other => {},
        }
        k += 1;
    }
    false
}

fn parent_collection_of(cols: &Vec<MacroCollection>, id: &str) -> (r: Option<CollectionElementType>)
    ensures
        r == parent_of(cols@, id@),
{
    let mut n: usize = cols.len();
    proof {
        assert(cols@.take(n as int) =~= cols@);
    }
    while n > 0
        invariant
            n <= cols.len(),
            parent_of(cols@, id@) == parent_of(cols@.take(n as int), id@),
        decreases n,
    {
        let c = &cols[n - 1];
        proof {
            assert(cols@.take(n as int).last() == cols@[n - 1]);
            assert(cols@.take(n as int).drop_last() =~= cols@.take(n - 1));
        }
        if collection_lists(c, id) {
            let uuid = match &c.uuid {
                Some(u) => Some(u.clone()),
                None => None,
            };
            return Some(
                CollectionElementType {
                    parameter_uuid: uuid,
                    parameter_name: c.name.clone(),
                    parent_collection: None,
                },
            );
        }
        n -= 1;
    }
    None
}

fn find_canonical(keys: &Vec<(String, usize)>, key: &str) -> (r: Option<usize>)
    ensures
        match r {
            Some(k) => k < keys.len() && keys@[k as int].0@ == key@,
            None => forall|q: int| 0 <= q < keys.len() ==> #[trigger] keys@[q].0@ != key@,
        },
{
    let mut k: usize = 0;
    while k < keys.len()
        invariant
            k <= keys.len(),
            forall|q: int| 0 <= q < k ==> #[trigger] keys@[q].0@ != key@,
        decreases keys.len() - k,
    {
        if str_eq(keys[k].0.as_str(), key) {
            return Some(k);
        }
        k += 1;
    }
    None
}

/// The character views of string slices.
pub open spec fn str_views(v: Seq<&str>) -> Seq<Seq<char>> {
    v.map_values(|s: &str| s@)
}

impl MacroCache {
    /// An empty catalog: no macros available.
    pub fn empty() -> (c: Self)
        ensures
            c@.len() == 0,
    {
        let c = MacroCache { macros: Vec::new() };
        proof {
            assert(c@ =~= Seq::<(Seq<char>, CollectionElementType)>::empty());
        }
        c
    }

    /// The catalog installed by a decoded macro document: every definition
    /// with an identity and a name, with the collection that lists it as
    /// its parent. Names that differ only by case are rejected.
    pub fn load_from(doc: &MacrosDocument) -> (r: Result<Self, MacroDocumentError>)
        ensures
            r matches Ok(c) ==> (forall|j: int|
                0 <= j < doc.macros@.len() ==> !#[trigger] name_clash_at(doc.macros@, j)) && c@
                == installed_catalog(doc.macro_collections@, doc.macros@) && catalog_wf(c@),
            r is Err ==> exists|j: int|
                #[trigger] first_clash(doc.macros@, j, r->Err_0->first@, r->Err_0->duplicate@),
    {
        let ms = &doc.macros;
        let mut macros: Vec<(String, CollectionElementType)> = Vec::new();
        let mut keys: Vec<(String, usize)> = Vec::new();
        let mut j: usize = 0;
        while j < ms.len()
            invariant
                j <= ms.len(),
                ms == &doc.macros,
                forall|k: int| 0 <= k < j ==> !#[trigger] name_clash_at(ms@, k),
                macros@.map_values(|e: (String, CollectionElementType)| (e.0@, e.1))
                    == installed_catalog(doc.macro_collections@, ms@.take(j as int)),
                forall|k: int|
                    0 <= k < keys.len() ==> #[trigger] keys@[k].1 < j && installs(
                        ms@[keys@[k].1 as int],
                    ) && keys@[k].0@ == unicode_lowercase(ms@[keys@[k].1 as int].name@),
                forall|i: int|
                    0 <= i < j && installs(#[trigger] ms@[i]) ==> exists|k: int|
                        0 <= k < keys.len() && keys@[k].1 == i,
                macros.len() == keys.len(),
                forall|q: int|
                    0 <= q < macros.len() ==> #[trigger] macros@[q].0@ == ms@[keys@[q].1 as int].name@,
                catalog_wf(macros@.map_values(|e: (String, CollectionElementType)| (e.0@, e.1))),
            decreases ms.len() - j,
        {
            let m = &ms[j];
            proof {
                assert(ms@.take(j + 1).drop_last() =~= ms@.take(j as int));
                assert(ms@.take(j + 1).last() == ms@[j as int]);
            }
            let eligible = match &m.uuid {
                Some(_) => chars_of(m.name.as_str()).len() > 0,
                None => false,
            };
            proof {
                assert(eligible == installs(ms@[j as int]));
            }
            if eligible {
                let key = to_lowercase(m.name.as_str());
                match find_canonical(&keys, key.as_str()) {
                    Some(k) => {
                        let i = keys[k].1;
                        let e = MacroDocumentError::DuplicateName {
                            first: ms[i].name.clone(),
                            duplicate: m.name.clone(),
                        };
                        proof {
                            assert(installs(ms@[i as int]));
                            assert(name_clash_at(ms@, j as int));
                            let rr = Err::<MacroCache, MacroDocumentError>(e);
                            assert(first_clash(doc.macros@, j as int, ms@[i as int].name@, m.name@));
                            assert(rr->Err_0->first@ == ms@[i as int].name@);
                            assert(rr->Err_0->duplicate@ == m.name@);
                        }
                        return Err(e);
                    },
                    None => {},
                }
                proof {
                    assert forall|i: int| 0 <= i < j && installs(#[trigger] ms@[i]) implies unicode_lowercase(
                        ms@[i].name@,
                    ) != unicode_lowercase(ms@[j as int].name@) by {
                        let q = choose|q: int| 0 <= q < keys.len() && keys@[q].1 == i;
                        assert(keys@[q].0@ != key@);
                    }
                    assert(!name_clash_at(ms@, j as int));
                    assert forall|q: int| 0 <= q < macros.len() implies #[trigger] macros@[q].0@ != m.name@ by {
                        let i = keys@[q].1 as int;
                        assert(installs(ms@[i]));
                        if macros@[q].0@ == m.name@ {
                            assert(unicode_lowercase(ms@[i].name@) == unicode_lowercase(ms@[j as int].name@));
                        }
                    }
                }
                let uuid = match &m.uuid {
                    Some(u) => u.clone(),
                    None => String::new(),
                };
                let parent = match parent_collection_of(&doc.macro_collections, uuid.as_str()) {
                    Some(p) => Some(Box::new(p)),
                    None => None,
                };
                let ident = CollectionElementType {
                    parameter_uuid: Some(uuid),
                    parameter_name: m.name.clone(),
                    parent_collection: parent,
                };
                let ghost before = macros@;
                let ghost old_keys = keys@;
                macros.push((m.name.clone(), ident));
                keys.push((key, j));
                proof {
                    assert(macros@.map_values(|e: (String, CollectionElementType)| (e.0@, e.1))
                        =~= before.map_values(|e: (String, CollectionElementType)| (e.0@, e.1)).push(
                        installed_entry(doc.macro_collections@, ms@[j as int]),
                    ));
                    assert forall|i: int| 0 <= i < j + 1 && installs(#[trigger] ms@[i]) implies exists|q: int|
                        0 <= q < keys.len() && keys@[q].1 == i by {
                        if i == j {
                            assert(keys@[keys.len() - 1].1 == i);
                        } else {
                            let q = choose|q: int| 0 <= q < old_keys.len() && old_keys[q].1 == i;
                            assert(keys@[q] == old_keys[q]);
                        }
                    }
                    let nv = macros@.map_values(|e: (String, CollectionElementType)| (e.0@, e.1));
                    assert forall|a: int, b: int| 0 <= a < b < nv.len() implies #[trigger] nv[a].0 != #[trigger] nv[b].0 by {
                        if b == nv.len() - 1 {
                            assert(nv[a].0 == macros@[a].0@);
                            assert(nv[b].0 == m.name@);
                        } else {
                            assert(nv[a] == before.map_values(|e: (String, CollectionElementType)| (e.0@, e.1))[a]);
                            assert(nv[b] == before.map_values(|e: (String, CollectionElementType)| (e.0@, e.1))[b]);
                        }
                    }
                    let last = macros.len() - 1;
                    assert(macros@[last].0@ == m.name@);
                    assert(keys@[last].1 == j);
                    assert(ms@[j as int] == *m);
                    assert(macros@[last].0@ == ms@[keys@[last].1 as int].name@);
                    assert forall|q: int| 0 <= q < last implies #[trigger] macros@[q].0@ == ms@[keys@[q].1 as int].name@ by {
                        assert(macros@[q] == before[q]);
                        assert(keys@[q] == old_keys[q]);
                        assert(before[q].0@ == ms@[old_keys[q].1 as int].name@);
                    }
                    assert forall|q: int| 0 <= q < macros.len() implies #[trigger] macros@[q].0@ == ms@[keys@[q].1 as int].name@ by {
                        if q < last {
                        } else {
                            assert(q == last);
                        }
                    }
                }
            } else {
                proof {
                    assert(!installs(ms@[j as int]));
                    assert(!name_clash_at(ms@, j as int));
                }
            }
            j += 1;
        }
        proof {
            assert(ms@.take(ms.len() as int) =~= ms@);
        }
        let c = MacroCache { macros };
        Ok(c)
    }

    /// Every catalog is well formed.
    pub fn check_wf(&self)
        ensures
            catalog_wf(self@),
    {
        proof {
            use_type_invariant(self);
        }
    }

    /// The native identification of the macro installed under exactly
    /// `name`.
    pub fn find(&self, name: &str) -> (r: Option<(&str, &CollectionElementType)>)
        ensures
            match r {
                Some((n, id)) => n@ == name@ && exists|i: int|
                    #[trigger] catalog_position(self@, name@, i) && self@[i].1 == *id,
                None => forall|i: int| 0 <= i < self@.len() ==> #[trigger] self@[i].0 != name@,
            },
    {
        proof {
            use_type_invariant(self);
        }
        let mut i: usize = 0;
        while i < self.macros.len()
            invariant
                i <= self.macros.len(),
                forall|k: int| 0 <= k < i ==> #[trigger] self@[k].0 != name@,
            decreases self.macros.len() - i,
        {
            if str_eq(self.macros[i].0.as_str(), name) {
                proof {
                    assert(catalog_position(self@, name@, i as int));
                }
                return Some((self.macros[i].0.as_str(), &self.macros[i].1));
            }
            i += 1;
        }
        None
    }

    /// The number of installed macros.
    pub fn len(&self) -> (n: usize)
        ensures
            n == self@.len(),
    {
        self.macros.len()
    }

    /// Whether no macro is installed.
    pub fn is_empty(&self) -> (b: bool)
        ensures
            b == (self@.len() == 0),
    {
        self.macros.len() == 0
    }

    /// All installed names, in ascending order.
    pub fn names(&self) -> (r: Vec<&str>)
        ensures
            r.len() == self@.len(),
            forall|i: int, j: int| 0 <= i < j < r.len() ==> char_seq_le(#[trigger] r[i]@, #[trigger] r[j]@),
            forall|i: int, j: int| 0 <= i < j < r.len() ==> #[trigger] r[i]@ != #[trigger] r[j]@,
            forall|k: int| 0 <= k < self@.len() ==> #[trigger] str_views(r@).contains(self@[k].0),
            exists|order: Seq<usize>|
                is_permutation_of_range(order, self@.len()) && forall|i: int|
                    0 <= i < r.len() ==> #[trigger] r[i]@ == self@[order[i] as int].0,
    {
        let mut keys: Vec<Vec<char>> = Vec::new();
        let mut i: usize = 0;
        while i < self.macros.len()
            invariant
                i <= self.macros.len(),
                keys.len() == i,
                forall|k: int| 0 <= k < i ==> #[trigger] keys@[k]@ == self@[k].0,
            decreases self.macros.len() - i,
        {
            keys.push(chars_of(self.macros[i].0.as_str()));
            i += 1;
        }
        let order = stable_key_order(&keys);
        let ghost kv = keys@.map_values(|k: Vec<char>| k@);
        let mut r: Vec<&str> = Vec::new();
        let mut k: usize = 0;
        while k < order.len()
            invariant
                k <= order.len() == self.macros.len(),
                keys.len() == self.macros.len(),
                kv == keys@.map_values(|k: Vec<char>| k@),
                forall|q: int| 0 <= q < keys.len() ==> #[trigger] keys@[q]@ == self@[q].0,
                is_permutation_of_range(order@, keys@.len() as nat),
                r.len() == k,
                forall|q: int| 0 <= q < k ==> #[trigger] r[q]@ == self@[order@[q] as int].0,
            decreases order.len() - k,
        {
            r.push(self.macros[order[k]].0.as_str());
            k += 1;
        }
        proof {
            assert forall|i: int, j: int| 0 <= i < j < r.len() implies char_seq_le(
                #[trigger] r[i]@,
                #[trigger] r[j]@,
            ) by {
                assert(kv[order@[i] as int] == r[i]@);
                assert(kv[order@[j] as int] == r[j]@);
            }
            assert(is_permutation_of_range(order@, self@.len()));
            assert(forall|i: int| 0 <= i < r.len() ==> #[trigger] r[i]@ == self@[order@[i] as int].0);
            use_type_invariant(self);
            lemma_permutation_covers_range(order@, self@.len());
            assert forall|k: int| 0 <= k < self@.len() implies #[trigger] str_views(r@).contains(self@[k].0) by {
                assert(order@.contains(k as usize));
                let i = choose|i: int| 0 <= i < order@.len() && order@[i] == k as usize;
                assert(r[i]@ == self@[order@[i] as int].0);
                assert(str_views(r@)[i] == r[i]@);
            }
            assert forall|i: int, j: int| 0 <= i < j < r.len() implies #[trigger] r[i]@ != #[trigger] r[j]@ by {
                let a = order@[i] as int;
                let b = order@[j] as int;
                assert(order@[i] != order@[j]);
                assert(r[i]@ == self@[a].0 && r[j]@ == self@[b].0);
                if a < b {
                    assert(self@[a].0 != self@[b].0);
                } else {
                    assert(self@[b].0 != self@[a].0);
                }
            }
        }
        r
    }
}

// ---------------------------------------------------------------------------
// Macro actions on cues
// ---------------------------------------------------------------------------

/// The macro name an action triggers, if it is a macro action.
pub open spec fn macro_name_of(a: Action) -> Option<Seq<char>> {
    match a.data {
        Some(ActionData::Macro { identification: Some(id) }) => Some(id.parameter_name@),
        _ => None,
    }
}

/// Whether a cue already triggers the macro named exactly `name`.
pub open spec fn has_macro_named(c: Cue, name: Seq<char>) -> bool {
    exists|k: int| 0 <= k < c.actions@.len() && macro_name_of(#[trigger] c.actions@[k]) == Some(name)
}

/// The macro name referenced by an action, if it is a macro action.
pub fn macro_action_name(action: &Action) -> (r: Option<&str>)
    ensures
        match r {
            Some(n) => macro_name_of(*action) == Some(n@),
            None => macro_name_of(*action) is None,
        },
{
    match &action.data {
        Some(ActionData::Macro { identification: Some(id) }) => Some(id.parameter_name.as_str()),
        _ => None,
    }
}

/// Whether a cue already has a macro with exactly the given name.
pub fn cue_has_macro_named(cue: &Cue, macro_name: &str) -> (r: bool)
    ensures
        r == has_macro_named(*cue, macro_name@),
{
    let mut k: usize = 0;
    while k < cue.actions.len()
        invariant
            k <= cue.actions.len(),
            forall|q: int| 0 <= q < k ==> macro_name_of(#[trigger] cue.actions@[q]) != Some(macro_name@),
        decreases cue.actions.len() - k,
    {
        match macro_action_name(&cue.actions[k]) {
            Some(n) => {
                if str_eq(n, macro_name) {
                    return true;
                }
            },
            None => {},
        }
        k += 1;
    }
    false
}

/// A version-4 random UUID value: version nibble 4 and the RFC 4122
/// variant bits `10`.
pub open spec fn random_uuid_value(v: u128) -> bool {
    &&& (v >> 76u128) & 0xfu128 == 4
    &&& (v >> 62u128) & 3u128 == 2
}

/// The lowercase hyphenated text of some version-4 random UUID.
pub open spec fn random_uuid_text(s: Seq<char>) -> bool {
    exists|v: u128| random_uuid_value(v) && s == hyphenated_uuid(v)
}

/// A fresh identity: present and a version-4 random UUID's text.
pub open spec fn fresh_identity(o: Option<String>) -> bool {
    o matches Some(u) && random_uuid_text(u@)
}

/// A fresh random identity in hyphenated form (uuid `Uuid::new_v4`,
/// rendered with `to_string`). `new_v4` masks random bits to set the
/// version nibble to 4 and the variant bits to `10`, and `Display` writes
/// the lowercase hyphenated form; which value comes out is random.
#[verifier::external_body]
pub(crate) fn new_uuid_string() -> (s: String)
    ensures
        s@.len() == 36,
        random_uuid_text(s@),
{
    uuid::Uuid::new_v4().to_string()
}

/// An enabled macro action triggering the macro `id`, under a fresh
/// identity.
pub open spec fn is_macro_action_for(a: Action, id: CollectionElementType) -> bool {
    &&& fresh_identity(a.uuid)
    &&& a.name == id.parameter_name
    &&& a.action_type == ACTION_TYPE_MACRO
    &&& a.is_enabled
    &&& a.data == Some(ActionData::Macro { identification: Some(id) })
}

fn make_macro_action(id: &CollectionElementType) -> (a: Action)
    ensures
        is_macro_action_for(a, *id),
{
    Action {
        uuid: Some(new_uuid_string()),
        name: id.parameter_name.clone(),
        action_type: ACTION_TYPE_MACRO,
        is_enabled: true,
        data: Some(ActionData::Macro { identification: Some(id.clone()) }),
    }
}

/// Index `i` is the first of `indices` that is not a cue of a presentation
/// with `n` cues.
pub open spec fn first_bad_index(indices: Seq<usize>, n: int, i: int) -> bool {
    &&& 0 <= i < indices.len()
    &&& indices[i] >= n
    &&& forall|k: int| 0 <= k < i ==> #[trigger] indices[k] < n
}

/// Cue `k` of `new` is cue `o` with the macro `id` added when `listed` and
/// missing, and unchanged otherwise.
pub open spec fn cue_after_addition(o: Cue, c: Cue, indices: Seq<usize>, k: int, name: Seq<char>, id: CollectionElementType) -> bool {
    &&& c.uuid == o.uuid
    &&& c.name == o.name
    &&& if indices.contains(k as usize) && !has_macro_named(o, name) {
        &&& c.actions@.len() == o.actions@.len() + 1
        &&& c.actions@.take(o.actions@.len() as int) == o.actions@
        &&& is_macro_action_for(c.actions@.last(), id)
    } else {
        c.actions == o.actions
    }
}

/// `new` is `old` with the macro `id`, named `name`, added to every listed
/// cue that lacks it; nothing else changes.
pub open spec fn macro_added(
    old: Presentation,
    new: Presentation,
    indices: Seq<usize>,
    name: Seq<char>,
    id: CollectionElementType,
) -> bool {
    &&& new.uuid == old.uuid
    &&& new.name == old.name
    &&& new.cue_groups == old.cue_groups
    &&& new.arrangements == old.arrangements
    &&& new.selected_arrangement == old.selected_arrangement
    &&& new.cues@.len() == old.cues@.len()
    &&& forall|k: int|
        0 <= k < old.cues@.len() ==> #[trigger] cue_after_addition(
            old.cues@[k],
            new.cues@[k],
            indices,
            k,
            name,
            id,
        )
}

proof fn lemma_listed_step(indices: Seq<usize>, j: int, k: int)
    requires
        0 <= j < indices.len(),
    ensures
        indices.take(j + 1).contains(k as usize) == (indices.take(j).contains(k as usize) || indices[j] == k as usize),
{
    let a = indices.take(j);
    let b = indices.take(j + 1);
    assert(b =~= a.push(indices[j]));
    if b.contains(k as usize) {
        let q = choose|q: int| 0 <= q < b.len() && b[q] == k as usize;
        if q < j {
            assert(a[q] == k as usize);
        }
    }
    if a.contains(k as usize) {
        let q = choose|q: int| 0 <= q < a.len() && a[q] == k as usize;
        assert(b[q] == k as usize);
    }
    if indices[j] == k as usize {
        assert(b[j] == k as usize);
    }
}

proof fn lemma_added_cue_has_macro(o: Cue, c: Cue, indices: Seq<usize>, k: int, name: Seq<char>, id: CollectionElementType)
    requires
        id.parameter_name@ == name,
        indices.contains(k as usize),
        cue_after_addition(o, c, indices, k, name, id),
    ensures
        has_macro_named(c, name),
{
    if has_macro_named(o, name) {
        let w = choose|w: int| 0 <= w < o.actions@.len() && macro_name_of(#[trigger] o.actions@[w]) == Some(name);
        assert(c.actions@[w] == o.actions@[w]);
    } else {
        let last = c.actions@.len() - 1;
        assert(c.actions@[last] == c.actions@.last());
        assert(macro_name_of(c.actions@[last]) == Some(name));
    }
}

/// Adds the installed macro `macro_name` to each listed cue that does not
/// already trigger it. Every index is checked before any cue changes: an
/// unknown macro or an index past the last cue leaves the presentation
/// unchanged.
pub fn add_macro_to_cue_entries(
    presentation: &mut Presentation,
    cue_indices: &[usize],
    macro_name: &str,
    cache: &MacroCache,
) -> (r: Result<(), MacroApplyError>)
    ensures
        r is Ok ==> (forall|k: int|
            0 <= k < cue_indices@.len() ==> #[trigger] cue_indices@[k] < old(presentation).cues@.len())
            && exists|i: int|
            #[trigger] catalog_position(cache@, macro_name@, i) && macro_added(
                *old(presentation),
                *final(presentation),
                cue_indices@,
                macro_name@,
                cache@[i].1,
            ),
        r is Err ==> *final(presentation) == *old(presentation),
        r matches Err(MacroApplyError::Unavailable(n)) ==> n@ == macro_name@ && forall|i: int|
            0 <= i < cache@.len() ==> #[trigger] cache@[i].0 != macro_name@,
        r matches Err(MacroApplyError::CueUnavailable { index, cue_count }) ==> cue_count
            == old(presentation).cues@.len() && (exists|i: int|
            #[trigger] first_bad_index(cue_indices@, cue_count as int, i) && cue_indices@[i] == index)
            && exists|i: int| #[trigger] catalog_position(cache@, macro_name@, i),
        r is Err ==> r matches Err(MacroApplyError::Unavailable(_)) || r matches Err(
            MacroApplyError::CueUnavailable { .. },
        ),
{
    proof {
        use_type_invariant(cache);
    }
    let (installed_name, identification) = match cache.find(macro_name) {
        Some(found) => found,
        None => return Err(MacroApplyError::Unavailable(macro_name.to_string())),
    };
    let ghost pos = choose|i: int| catalog_position(cache@, macro_name@, i) && cache@[i].1 == *identification;
    let cue_count = presentation.cues.len();
    let mut k: usize = 0;
    while k < cue_indices.len()
        invariant
            k <= cue_indices.len(),
            catalog_position(cache@, macro_name@, pos),
            *presentation == *old(presentation),
            cue_count == presentation.cues@.len(),
            forall|q: int| 0 <= q < k ==> #[trigger] cue_indices@[q] < cue_count,
        decreases cue_indices.len() - k,
    {
        if cue_indices[k] >= cue_count {
            let index = cue_indices[k];
            let e = MacroApplyError::CueUnavailable { index, cue_count };
            proof {
                assert(first_bad_index(cue_indices@, cue_count as int, k as int));
                let rr = Err::<(), MacroApplyError>(e);
                assert(rr->Err_0->CueUnavailable_index == index);
                assert(rr->Err_0->CueUnavailable_cue_count == cue_count);
                assert(first_bad_index(cue_indices@, rr->Err_0->CueUnavailable_cue_count as int, k as int));
            }
            return Err(e);
        }
        k += 1;
    }
    let ghost old_p = *presentation;
    let ghost id = *identification;
    proof {
        assert(catalog_position(cache@, macro_name@, pos));
        assert(id.parameter_name@ == macro_name@);
        assert forall|k: int| 0 <= k < old_p.cues@.len() implies #[trigger] cue_after_addition(
            old_p.cues@[k],
            presentation.cues@[k],
            cue_indices@.take(0),
            k,
            macro_name@,
            id,
        ) by {
            assert(!cue_indices@.take(0).contains(k as usize));
        }
    }
    let mut j: usize = 0;
    while j < cue_indices.len()
        invariant
            j <= cue_indices.len(),
            cue_count == old_p.cues@.len(),
            forall|q: int| 0 <= q < cue_indices.len() ==> #[trigger] cue_indices@[q] < cue_count,
            installed_name@ == macro_name@,
            *identification == id,
            id.parameter_name@ == macro_name@,
            macro_added(old_p, *presentation, cue_indices@.take(j as int), macro_name@, id),
        decreases cue_indices.len() - j,
    {
        let index = cue_indices[j];
        let ghost before = *presentation;
        proof {
            assert(macro_added(old_p, before, cue_indices@.take(j as int), macro_name@, id));
        }
        if !cue_has_macro_named(&presentation.cues[index], installed_name) {
            let action = make_macro_action(identification);
            presentation.cues[index].actions.push(action);
        }
        proof {
            assert forall|k: int| 0 <= k < old_p.cues@.len() implies #[trigger] cue_after_addition(
                old_p.cues@[k],
                presentation.cues@[k],
                cue_indices@.take(j + 1),
                k,
                macro_name@,
                id,
            ) by {
                lemma_listed_step(cue_indices@, j as int, k);
                let o = old_p.cues@[k];
                let b = before.cues@[k];
                let was = cue_indices@.take(j as int).contains(k as usize);
                assert(cue_after_addition(o, b, cue_indices@.take(j as int), k, macro_name@, id));
                if k == index as int {
                    if was {
                        lemma_added_cue_has_macro(o, b, cue_indices@.take(j as int), k, macro_name@, id);
                    } else if has_macro_named(o, macro_name@) {
                        assert(b.actions == o.actions);
                        let w = choose|w: int| 0 <= w < o.actions@.len() && macro_name_of(#[trigger] o.actions@[w]) == Some(macro_name@);
                        assert(b.actions@[w] == o.actions@[w]);
                        assert(has_macro_named(b, macro_name@));
                    } else {
                        assert(b.actions == o.actions);
                        assert(!has_macro_named(b, macro_name@));
                        let c = presentation.cues@[k];
                        assert(c.actions@.take(o.actions@.len() as int) =~= o.actions@);
                    }
                }
            }
        }
        j += 1;
    }
    proof {
        assert(cue_indices@.take(cue_indices.len() as int) =~= cue_indices@);
        assert(catalog_position(cache@, macro_name@, pos));
        assert(cache@[pos].1 == id);
    }
    Ok(())
}

/// Law: adding a macro is idempotent. Once every listed cue triggers the
/// macro, adding it again at the same cues changes nothing.
pub proof fn law_macro_addition_idempotent(
    p0: Presentation,
    p1: Presentation,
    p2: Presentation,
    indices: Seq<usize>,
    name: Seq<char>,
    id: CollectionElementType,
)
    requires
        id.parameter_name@ == name,
        macro_added(p0, p1, indices, name, id),
        macro_added(p1, p2, indices, name, id),
    ensures
        p2.uuid == p1.uuid,
        p2.name == p1.name,
        p2.cue_groups == p1.cue_groups,
        p2.arrangements == p1.arrangements,
        p2.selected_arrangement == p1.selected_arrangement,
        p2.cues@ == p1.cues@,
{
    assert forall|k: int| 0 <= k < p1.cues@.len() implies #[trigger] p2.cues@[k] == p1.cues@[k] by {
        assert(cue_after_addition(p0.cues@[k], p1.cues@[k], indices, k, name, id));
        assert(cue_after_addition(p1.cues@[k], p2.cues@[k], indices, k, name, id));
        if indices.contains(k as usize) {
            lemma_added_cue_has_macro(p0.cues@[k], p1.cues@[k], indices, k, name, id);
        }
        assert(p2.cues@[k].actions == p1.cues@[k].actions);
    }
    assert(p2.cues@ =~= p1.cues@);
}

} // verus!
