//! The canonical catalog: entries with a title name and alias strings. The
//! aliases of all entries, in catalog order, are the corpus that is indexed;
//! the reverse lookup leads from an alias back to the name of its entry.

use vstd::prelude::*;

verus! {

/// One catalog entry: its canonical name and its alias strings in order.
pub struct CatalogEntry {
    pub title_name: String,
    pub other_titles: Vec<String>,
}

/// The mathematical content of a catalog entry.
pub struct EntryModel {
    pub title_name: Seq<char>,
    pub other_titles: Seq<Seq<char>>,
}

impl View for CatalogEntry {
    type V = EntryModel;

    open spec fn view(&self) -> EntryModel {
        EntryModel { title_name: self.title_name@, other_titles: self.other_titles.deep_view() }
    }
}

/// One entry as it was found in the catalog data, before it is known to be
/// well formed.
pub struct RawEntry {
    /// The string found as the name; `None` where no string was found.
    pub title_name: Option<String>,
    /// The list found as the aliases, each item the string it holds or
    /// `None` where it holds none; `None` where no list was found.
    pub other_titles: Option<Vec<Option<String>>>,
}

/// Why catalog data was refused.
#[derive(Debug, PartialEq, Eq)]
pub enum CatalogError {
    /// The entry at this position, the first such, lacks its name or its
    /// alias list, or lists something that is no string.
    MalformedEntry(usize),
}

/// Whether a found entry is well formed: it has a name and an alias list,
/// and every alias is a string.
pub open spec fn well_formed(raw: RawEntry) -> bool {
    &&& raw.title_name is Some
    &&& raw.other_titles is Some
    &&& forall|k: int|
        0 <= k < raw.other_titles.unwrap()@.len() ==> (#[trigger] raw.other_titles.unwrap()@[k])
            is Some
}

/// The entry that a well-formed found entry stands for.
pub open spec fn entry_found(raw: RawEntry) -> EntryModel {
    EntryModel {
        title_name: raw.title_name.unwrap()@,
        other_titles: raw.other_titles.unwrap()@.map_values(
            |item: Option<String>| item.unwrap()@,
        ),
    }
}

/// The contents of a catalog.
pub open spec fn catalog_model(catalog: Seq<CatalogEntry>) -> Seq<EntryModel> {
    catalog.map_values(|entry: CatalogEntry| entry@)
}

/// The aliases of all entries, entry after entry, each entry's in its order.
pub open spec fn all_aliases(catalog: Seq<EntryModel>) -> Seq<Seq<char>>
    decreases catalog.len(),
{
    if catalog.len() == 0 {
        Seq::empty()
    } else {
        all_aliases(catalog.drop_last()) + catalog.last().other_titles
    }
}

/// Whether an entry answers for `title`: the title is one of its aliases
/// or its name.
pub open spec fn entry_names(entry: EntryModel, title: Seq<char>) -> bool {
    entry.other_titles.contains(title) || entry.title_name == title
}

/// The name that the catalog gives `title`: the name of the last entry that
/// answers for it, or the title itself where no entry does.
pub open spec fn named_title(catalog: Seq<EntryModel>, title: Seq<char>) -> Seq<char>
    decreases catalog.len(),
{
    if catalog.len() == 0 {
        title
    } else if entry_names(catalog.last(), title) {
        catalog.last().title_name
    } else {
        named_title(catalog.drop_last(), title)
    }
}

/// Takes found entries as a catalog. Every entry must be well formed: the
/// first one that is not refuses the whole, and no partial catalog is made.
pub fn read_catalog(found: &Vec<RawEntry>) -> (r: Result<Vec<CatalogEntry>, CatalogError>)
    ensures
        match r {
            Ok(catalog) => {
                &&& forall|i: int| 0 <= i < found.len() ==> well_formed(#[trigger] found[i])
                &&& catalog_model(catalog@) == found@.map_values(|raw: RawEntry| entry_found(raw))
            },
            Err(CatalogError::MalformedEntry(at)) => {
                &&& at < found.len()
                &&& !well_formed(found[at as int])
                &&& forall|i: int| 0 <= i < at ==> well_formed(#[trigger] found[i])
            },
        },
{
    let mut catalog: Vec<CatalogEntry> = Vec::new();
    let mut i: usize = 0;
    while i < found.len()
        invariant
            i <= found.len(),
            catalog.len() == i,
            forall|r: int| 0 <= r < i ==> well_formed(#[trigger] found[r]),
            forall|r: int| 0 <= r < i ==> (#[trigger] catalog[r])@ == entry_found(found[r]),
        decreases found.len() - i,
    {
        let raw = &found[i];
        let name = match &raw.title_name {
            Some(name) => name.clone(),
            None => { return Err(CatalogError::MalformedEntry(i)); },
        };
        let items = match &raw.other_titles {
            Some(items) => items,
            None => { return Err(CatalogError::MalformedEntry(i)); },
        };
        let mut aliases: Vec<String> = Vec::new();
        let mut k: usize = 0;
        while k < items.len()
            invariant
                k <= items.len(),
                aliases.len() == k,
                forall|a: int| 0 <= a < k ==> (#[trigger] items[a]) is Some,
                forall|a: int| 0 <= a < k ==> (#[trigger] aliases[a])@ == items[a].unwrap()@,
                raw.other_titles == Some(*items),
                *raw == found[i as int],
                i < found.len(),
                forall|r: int| 0 <= r < i ==> well_formed(#[trigger] found[r]),
            decreases items.len() - k,
        {
            match &items[k] {
                Some(alias) => {
                    aliases.push(alias.clone());
                },
                None => {
                    assert(!(raw.other_titles.unwrap()@[k as int] is Some));
                    assert(!well_formed(found[i as int]));
                    return Err(CatalogError::MalformedEntry(i));
                },
            }
            k += 1;
        }
        assert(aliases.deep_view() =~= entry_found(*raw).other_titles);
        catalog.push(CatalogEntry { title_name: name, other_titles: aliases });
        i += 1;
    }
    assert(catalog_model(catalog@) =~= found@.map_values(|raw: RawEntry| entry_found(raw)));
    Ok(catalog)
}

/// The corpus of the catalog: every alias of every entry, in catalog order.
pub fn load_standarized_values(catalog: &Vec<CatalogEntry>) -> (titles: Vec<String>)
    ensures
        titles.deep_view() == all_aliases(catalog_model(catalog@)),
{
    let ghost model = catalog_model(catalog@);
    let mut titles: Vec<String> = Vec::new();
    let mut i: usize = 0;
    assert(model.take(0) =~= Seq::empty());
    assert(titles.deep_view() =~= Seq::empty());
    while i < catalog.len()
        invariant
            i <= catalog.len(),
            model == catalog_model(catalog@),
            titles.deep_view() == all_aliases(model.take(i as int)),
        decreases catalog.len() - i,
    {
        let aliases = &catalog[i].other_titles;
        let ghost start = titles.deep_view();
        let ghost names = aliases.deep_view();
        assert(model[i as int].other_titles == names);
        let mut k: usize = 0;
        assert(names.take(0) =~= Seq::empty());
        assert(start + names.take(0) =~= start);
        while k < aliases.len()
            invariant
                k <= aliases.len(),
                names == aliases.deep_view(),
                titles.deep_view() == start + names.take(k as int),
            decreases aliases.len() - k,
        {
            let ghost before = titles.deep_view();
            titles.push(aliases[k].clone());
            assert(titles.deep_view() =~= before.push(aliases[k as int]@));
            assert(start + names.take(k as int + 1) =~= (start + names.take(k as int)).push(
                names[k as int],
            ));
            k += 1;
        }
        assert(names.take(k as int) =~= names);
        assert(model.take(i as int + 1).drop_last() =~= model.take(i as int));
        assert(model.take(i as int + 1).last() == model[i as int]);
        i += 1;
    }
    assert(model.take(i as int) =~= model);
    titles
}

/// The titles that queries are matched against: the corpus of the catalog.
pub fn get_standardized_titles(catalog: &Vec<CatalogEntry>) -> (titles: Vec<String>)
    ensures
        titles.deep_view() == all_aliases(catalog_model(catalog@)),
{
    load_standarized_values(catalog)
}

/// Whether `titles` holds `wanted`.
fn holds(titles: &Vec<String>, wanted: &String) -> (found: bool)
    ensures
        found == titles.deep_view().contains(wanted@),
{
    let mut k: usize = 0;
    while k < titles.len()
        invariant
            k <= titles.len(),
            forall|a: int| 0 <= a < k ==> titles.deep_view()[a] != wanted@,
        decreases titles.len() - k,
    {
        if titles[k] == *wanted {
            assert(titles.deep_view()[k as int] == wanted@);
            return true;
        }
        assert(titles.deep_view()[k as int] == titles[k as int]@);
        k += 1;
    }
    false
}

/// Leads a matched title back to the name of its catalog entry. Where
/// several entries answer for the title, the last one in catalog order
/// gives the name; a title that no entry answers for is returned unchanged.
pub fn standard_title_to_bls_title(catalog: &Vec<CatalogEntry>, standard_title: &str) -> (name:
    String)
    ensures
        name@ == named_title(catalog_model(catalog@), standard_title@),
{
    let ghost model = catalog_model(catalog@);
    let wanted = standard_title.to_owned();
    let mut i: usize = catalog.len();
    assert(model.take(i as int) =~= model);
    while i > 0
        invariant
            i <= catalog.len(),
            model == catalog_model(catalog@),
            wanted@ == standard_title@,
            named_title(model, wanted@) == named_title(model.take(i as int), wanted@),
        decreases i,
    {
        let entry = &catalog[i - 1];
        let ghost part = model.take(i as int);
        assert(part.last() == entry@);
        assert(part.drop_last() =~= model.take(i as int - 1));
        if holds(&entry.other_titles, &wanted) || entry.title_name == wanted {
            return entry.title_name.clone();
        }
        i -= 1;
    }
    wanted
}

} // verus!
