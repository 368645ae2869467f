//! The document schema.
//!
//! A document exists in two shapes: the **input shape** ([`InputScene`]),
//! which carries full nested objects for referenced entities at ingest time,
//! and the **stored shape** ([`StoredScene`]), a normalized projection that
//! keeps only the reference external ids. Only the stored shape is retained
//! and returned by search.

use vstd::prelude::*;

use crate::analyzer::{lexemes_of, AnalyzerConfig};
use crate::text::{join_spaced, str_views};

verus! {

/// A referenced entity as submitted by callers: its external id, its name,
/// and optional aliases. Name and aliases are searchable text.
pub struct Aliasable {
    pub id: String,
    pub name: String,
    pub aliases: Option<Vec<String>>,
}

/// The mathematical model of an [`Aliasable`].
pub ghost struct AliasableView {
    pub id: Seq<char>,
    pub name: Seq<char>,
    pub aliases: Option<Seq<Seq<char>>>,
}

impl View for Aliasable {
    type V = AliasableView;

    open spec fn view(&self) -> AliasableView {
        AliasableView {
            id: self.id@,
            name: self.name@,
            aliases: match self.aliases {
                Some(v) => Some(str_views(v@)),
                None => None,
            },
        }
    }
}

/// A document in input shape: attributes plus full nested referenced
/// entities (performers and labels).
pub struct InputScene {
    pub id: String,
    pub name: String,
    pub added_on: i64,
    pub release_date: Option<i64>,
    pub bookmark: bool,
    pub favorite: bool,
    pub rating: Option<u8>,
    pub actors: Vec<Aliasable>,
    pub labels: Vec<Aliasable>,
    pub num_watches: u16,
    pub duration: Option<u16>,
    pub size: Option<u64>,
    pub studio: Option<String>,
    pub studio_name: Option<String>,
    pub resolution: Option<u16>,
}

/// The mathematical model of an [`InputScene`].
pub ghost struct InputSceneView {
    pub id: Seq<char>,
    pub name: Seq<char>,
    pub added_on: i64,
    pub release_date: Option<i64>,
    pub bookmark: bool,
    pub favorite: bool,
    pub rating: Option<u8>,
    pub actors: Seq<AliasableView>,
    pub labels: Seq<AliasableView>,
    pub num_watches: u16,
    pub duration: Option<u16>,
    pub size: Option<u64>,
    pub studio: Option<Seq<char>>,
    pub studio_name: Option<Seq<char>>,
    pub resolution: Option<u16>,
}

/// The views of a sequence of referenced entities.
pub open spec fn alias_views(v: Seq<Aliasable>) -> Seq<AliasableView> {
    v.map_values(|a: Aliasable| a@)
}

impl View for InputScene {
    type V = InputSceneView;

    open spec fn view(&self) -> InputSceneView {
        InputSceneView {
            id: self.id@,
            name: self.name@,
            added_on: self.added_on,
            release_date: self.release_date,
            bookmark: self.bookmark,
            favorite: self.favorite,
            rating: self.rating,
            actors: alias_views(self.actors@),
            labels: alias_views(self.labels@),
            num_watches: self.num_watches,
            duration: self.duration,
            size: self.size,
            studio: match self.studio {
                Some(s) => Some(s@),
                None => None,
            },
            studio_name: match self.studio_name {
                Some(s) => Some(s@),
                None => None,
            },
            resolution: self.resolution,
        }
    }
}

/// A document in stored shape: the normalized projection that search
/// returns. References are reduced to external ids.
pub struct StoredScene {
    pub id: String,
    pub name: String,
    pub added_on: i64,
    pub bookmark: bool,
    pub favorite: bool,
    pub rating: Option<u8>,
    pub studio: Option<String>,
    pub actors: Vec<String>,
    pub labels: Vec<String>,
    pub num_watches: u16,
    pub duration: Option<u16>,
    pub size: Option<u64>,
    pub resolution: Option<u16>,
    pub release_date: Option<i64>,
}

/// The mathematical model of a [`StoredScene`].
pub ghost struct StoredSceneView {
    pub id: Seq<char>,
    pub name: Seq<char>,
    pub added_on: i64,
    pub bookmark: bool,
    pub favorite: bool,
    pub rating: Option<u8>,
    pub studio: Option<Seq<char>>,
    pub actors: Seq<Seq<char>>,
    pub labels: Seq<Seq<char>>,
    pub num_watches: u16,
    pub duration: Option<u16>,
    pub size: Option<u64>,
    pub resolution: Option<u16>,
    pub release_date: Option<i64>,
}

impl View for StoredScene {
    type V = StoredSceneView;

    open spec fn view(&self) -> StoredSceneView {
        StoredSceneView {
            id: self.id@,
            name: self.name@,
            added_on: self.added_on,
            bookmark: self.bookmark,
            favorite: self.favorite,
            rating: self.rating,
            studio: match self.studio {
                Some(s) => Some(s@),
                None => None,
            },
            actors: str_views(self.actors@),
            labels: str_views(self.labels@),
            num_watches: self.num_watches,
            duration: self.duration,
            size: self.size,
            resolution: self.resolution,
            release_date: self.release_date,
        }
    }
}

/// The stored shape of an input document: every attribute is kept, and each
/// referenced entity is reduced to its external id.
pub open spec fn stored_of(d: InputSceneView) -> StoredSceneView {
    StoredSceneView {
        id: d.id,
        name: d.name,
        added_on: d.added_on,
        bookmark: d.bookmark,
        favorite: d.favorite,
        rating: d.rating,
        studio: d.studio,
        actors: d.actors.map_values(|a: AliasableView| a.id),
        labels: d.labels.map_values(|a: AliasableView| a.id),
        num_watches: d.num_watches,
        duration: d.duration,
        size: d.size,
        resolution: d.resolution,
        release_date: d.release_date,
    }
}

/// The joined alias text of a referenced entity; empty when there are no
/// aliases.
pub open spec fn alias_join(a: AliasableView) -> Seq<char> {
    match a.aliases {
        Some(al) => join_spaced(al),
        None => Seq::empty(),
    }
}

/// The searchable texts a referenced entity contributes: its name, and its
/// aliases joined with spaces.
pub open spec fn alias_texts(a: AliasableView) -> Seq<Seq<char>> {
    seq![a.name, alias_join(a)]
}

/// The searchable texts of a list of referenced entities, in order.
pub open spec fn list_texts(v: Seq<AliasableView>) -> Seq<Seq<char>>
    decreases v.len(),
{
    if v.len() == 0 {
        Seq::empty()
    } else {
        alias_texts(v[0]) + list_texts(v.drop_first())
    }
}

/// Every searchable text of an input document, in indexing order: the name,
/// the parent grouping's name when present, then the texts of the referenced
/// performers and labels.
pub open spec fn input_texts(d: InputSceneView) -> Seq<Seq<char>> {
    seq![d.name] + (match d.studio_name {
        Some(s) => seq![s],
        None => Seq::<Seq<char>>::empty(),
    }) + list_texts(d.actors) + list_texts(d.labels)
}

/// The lexemes of a list of texts, concatenated in order.
pub open spec fn texts_lexemes(ts: Seq<Seq<char>>, cfg: AnalyzerConfig) -> Seq<Seq<char>>
    decreases ts.len(),
{
    if ts.len() == 0 {
        Seq::empty()
    } else {
        lexemes_of(ts[0], cfg) + texts_lexemes(ts.drop_first(), cfg)
    }
}

/// Every lexeme an input document contributes to the index, in order, with
/// multiplicity.
pub open spec fn input_lexemes(d: InputSceneView, cfg: AnalyzerConfig) -> Seq<Seq<char>> {
    texts_lexemes(input_texts(d), cfg)
}

pub proof fn lemma_list_texts_empty(cfg: AnalyzerConfig)
    ensures
        list_texts(Seq::<AliasableView>::empty()) == Seq::<Seq<char>>::empty(),
        texts_lexemes(Seq::<Seq<char>>::empty(), cfg) == Seq::<Seq<char>>::empty(),
{
}

/// The lexemes of one referenced entity's pair of texts.
pub proof fn lemma_texts_lexemes_pair(a: AliasableView, cfg: AnalyzerConfig)
    ensures
        texts_lexemes(alias_texts(a), cfg) == lexemes_of(a.name, cfg) + lexemes_of(
            alias_join(a),
            cfg,
        ),
{
    let ts = alias_texts(a);
    assert(ts[0] == a.name);
    assert(ts.drop_first() =~= seq![alias_join(a)]);
    assert(seq![alias_join(a)][0] == alias_join(a));
    assert(seq![alias_join(a)].drop_first() =~= Seq::<Seq<char>>::empty());
    assert(texts_lexemes(seq![alias_join(a)], cfg) == lexemes_of(alias_join(a), cfg)
        + texts_lexemes(Seq::<Seq<char>>::empty(), cfg));
    assert(lexemes_of(alias_join(a), cfg) + Seq::<Seq<char>>::empty() =~= lexemes_of(
        alias_join(a),
        cfg,
    ));
}

/// Texts of a list extended by one entity, and their lexemes.
pub proof fn lemma_list_texts_snoc(v: Seq<AliasableView>, a: AliasableView, cfg: AnalyzerConfig)
    ensures
        list_texts(v.push(a)) == list_texts(v) + alias_texts(a),
        texts_lexemes(list_texts(v) + alias_texts(a), cfg) == texts_lexemes(list_texts(v), cfg)
            + texts_lexemes(alias_texts(a), cfg),
    decreases v.len(),
{
    if v.len() == 0 {
        assert(v.push(a)[0] == a);
        assert(v.push(a).drop_first() =~= Seq::<AliasableView>::empty());
        assert(list_texts(v.push(a)) == alias_texts(a) + list_texts(
            Seq::<AliasableView>::empty(),
        ));
        assert(alias_texts(a) + Seq::<Seq<char>>::empty() =~= alias_texts(a));
        assert(list_texts(v) + alias_texts(a) =~= alias_texts(a));
    } else {
        assert(v.push(a)[0] == v[0]);
        assert(v.push(a).drop_first() =~= v.drop_first().push(a));
        lemma_list_texts_snoc(v.drop_first(), a, cfg);
        assert(list_texts(v.push(a)) == alias_texts(v[0]) + list_texts(v.drop_first().push(a)));
        assert(alias_texts(v[0]) + (list_texts(v.drop_first()) + alias_texts(a)) =~= (alias_texts(
            v[0],
        ) + list_texts(v.drop_first())) + alias_texts(a));
    }
    lemma_texts_lexemes_concat(list_texts(v), alias_texts(a), cfg);
}

/// `texts_lexemes` distributes over concatenation.
pub proof fn lemma_texts_lexemes_concat(a: Seq<Seq<char>>, b: Seq<Seq<char>>, cfg: AnalyzerConfig)
    ensures
        texts_lexemes(a + b, cfg) == texts_lexemes(a, cfg) + texts_lexemes(b, cfg),
    decreases a.len(),
{
    if a.len() == 0 {
        assert(a + b =~= b);
        assert(texts_lexemes(a, cfg) + texts_lexemes(b, cfg) =~= texts_lexemes(b, cfg));
    } else {
        assert((a + b)[0] == a[0]);
        assert((a + b).drop_first() =~= a.drop_first() + b);
        lemma_texts_lexemes_concat(a.drop_first(), b, cfg);
        assert(lexemes_of(a[0], cfg) + (texts_lexemes(a.drop_first(), cfg) + texts_lexemes(b, cfg))
            =~= (lexemes_of(a[0], cfg) + texts_lexemes(a.drop_first(), cfg)) + texts_lexemes(
            b,
            cfg,
        ));
    }
}


/// Project a list of referenced entities to their external ids.
fn ids_of(v: &Vec<Aliasable>) -> (r: Vec<String>)
    ensures
        str_views(r@) == alias_views(v@).map_values(|a: AliasableView| a.id),
{
    let mut r: Vec<String> = Vec::new();
    let mut i: usize = 0;
    while i < v.len()
        invariant
            i <= v.len(),
            str_views(r@) =~= alias_views(v@.take(i as int)).map_values(|a: AliasableView| a.id),
        decreases v.len() - i,
    {
        let ghost pre = r@;
        r.push(v[i].id.clone());
        proof {
            let g = |a: AliasableView| a.id;
            assert(alias_views(v@.take(i + 1)) =~= alias_views(v@.take(i as int)).push(
                v@[i as int]@,
            ));
            assert(r@ =~= pre.push(r@.last()));
            assert(r@.last()@ == v@[i as int]@.id);
            assert(str_views(r@) =~= str_views(pre).push(v@[i as int]@.id));
            assert(alias_views(v@.take(i as int)).push(v@[i as int]@).map_values(g)
                =~= alias_views(v@.take(i as int)).map_values(g).push(v@[i as int]@.id));
            assert(str_views(r@) =~= alias_views(v@.take(i + 1)).map_values(g));
        }
        i = i + 1;
    }
    proof {
        assert(v@.take(v@.len() as int) =~= v@);
    }
    r
}

/// The stored shape of an input document: attributes copied, references
/// reduced to external ids.
pub fn create_storage_scene(input: &InputScene) -> (r: StoredScene)
    ensures
        r@ == stored_of(input@),
{
    let actors = ids_of(&input.actors);
    let labels = ids_of(&input.labels);
    let r = StoredScene {
        id: input.id.clone(),
        name: input.name.clone(),
        added_on: input.added_on,
        bookmark: input.bookmark,
        favorite: input.favorite,
        rating: input.rating,
        studio: match &input.studio {
            Some(s) => Some(s.clone()),
            None => None,
        },
        actors,
        labels,
        num_watches: input.num_watches,
        duration: input.duration,
        size: input.size,
        resolution: input.resolution,
        release_date: input.release_date,
    };
    r
}

} // verus!
