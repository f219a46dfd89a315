use vstd::prelude::*;

use crate::common::{Value, ValueView};
use crate::error::{SpecViolation, SpecViolationView};
use crate::geometry::clone_words;
use crate::geometry::{EncodedGeometry, EncodedGeometryView, GeomType};

pub use crate::geometry::{EncodableGeometry, Geometry, GeometryView, TileCoord, TileCoords};

verus! {

/// The fixed version of the wire format this writer emits.
pub const VERSION: u32 = 2;

/// The default per-tile-edge coordinate resolution of a layer.
pub const DEFAULT_EXTENT: u32 = 4096;

/// One tag pair in mathematical form: the key's character sequence and the
/// value's shape.
pub type TagView = (Seq<char>, ValueView);

/// A feature as a caller builds it: a validated geometry, an optional id and
/// an ordered list of tag pairs.
#[derive(Debug, PartialEq, Eq, Clone)]
pub struct Feature {
    pub id: Option<u64>,
    pub tags: Vec<(String, Value)>,
    geometry: EncodedGeometry,
}

/// The mathematical shape of a [`Feature`].
pub struct FeatureView {
    pub id: Option<u64>,
    pub tags: Seq<TagView>,
    pub geometry: EncodedGeometryView,
}

/// The tag list of a feature, abstracted pair by pair.
pub open spec fn tags_view(tags: Seq<(String, Value)>) -> Seq<TagView> {
    tags.map_values(|t: (String, Value)| (t.0@, t.1@))
}

impl View for Feature {
    type V = FeatureView;

    closed spec fn view(&self) -> FeatureView {
        FeatureView { id: self.id, tags: tags_view(self.tags@), geometry: self.geometry@ }
    }
}

impl Feature {
    /// Wraps a validated geometry into a feature without id or tags.
    pub fn new(geometry: EncodedGeometry) -> (r: Feature)
        ensures
            r@.id is None,
            r@.tags.len() == 0,
            r@.geometry == geometry@,
    {
        let r = Feature { id: None, tags: Vec::new(), geometry };
        proof {
            assert(r@.tags =~= Seq::<TagView>::empty());
        }
        r
    }

    /// Appends one tag pair, keeping the earlier pairs' order.
    pub fn add_tag(&mut self, key: &str, value: Value)
        ensures
            final(self)@.id == old(self)@.id,
            final(self)@.geometry == old(self)@.geometry,
            final(self)@.tags == old(self)@.tags.push((key@, value@)),
    {
        let ghost v = value@;
        self.tags.push((key.to_owned(), value));
        proof {
            assert(tags_view(self.tags@) =~= tags_view(old(self).tags@).push((key@, v)));
        }
    }
}

/// First-seen deduplication: each element of `s` once, in the order of first
/// appearance.
pub open spec fn dedup<T>(s: Seq<T>) -> Seq<T>
    decreases s.len(),
{
    if s.len() == 0 {
        Seq::empty()
    } else {
        let p = dedup(s.drop_last());
        if p.contains(s.last()) {
            p
        } else {
            p.push(s.last())
        }
    }
}

pub proof fn lemma_dedup_contains<T>(s: Seq<T>, x: T)
    ensures
        dedup(s).contains(x) <==> s.contains(x),
    decreases s.len(),
{
    if s.len() > 0 {
        lemma_dedup_contains(s.drop_last(), x);
        let p = dedup(s.drop_last());
        assert(s.contains(x) ==> s.drop_last().contains(x) || s.last() == x) by {
            if s.contains(x) {
                let k = choose|k: int| 0 <= k < s.len() && s[k] == x;
                if k < s.len() - 1 {
                    assert(s.drop_last()[k] == x);
                }
            }
        }
        assert(s.drop_last().contains(x) ==> s.contains(x)) by {
            if s.drop_last().contains(x) {
                let k = choose|k: int| 0 <= k < s.drop_last().len() && s.drop_last()[k] == x;
                assert(s[k] == x);
            }
        }
        assert(s.last() == x ==> s.contains(x)) by {
            if s.last() == x {
                assert(s[s.len() - 1] == x);
            }
        }
        if !p.contains(s.last()) {
            let q = p.push(s.last());
            assert(q.contains(x) ==> p.contains(x) || s.last() == x) by {
                if q.contains(x) {
                    let k = choose|k: int| 0 <= k < q.len() && q[k] == x;
                    if k < p.len() {
                        assert(p[k] == x);
                    }
                }
            }
            assert(p.contains(x) ==> q.contains(x)) by {
                if p.contains(x) {
                    let k = choose|k: int| 0 <= k < p.len() && p[k] == x;
                    assert(q[k] == x);
                }
            }
            assert(s.last() == x ==> q.contains(x)) by {
                assert(q[p.len() as int] == s.last());
            }
        }
    }
}

/// A first-seen-deduplicated table holds no element twice.
pub proof fn lemma_dedup_no_dup<T>(s: Seq<T>)
    ensures
        dedup(s).no_duplicates(),
    decreases s.len(),
{
    if s.len() > 0 {
        lemma_dedup_no_dup(s.drop_last());
        let p = dedup(s.drop_last());
        if !p.contains(s.last()) {
            assert forall|i: int, j: int|
                0 <= i < p.push(s.last()).len() && 0 <= j < p.push(s.last()).len() && i
                    != j implies p.push(s.last())[i] != p.push(s.last())[j] by {
                if i < p.len() && j < p.len() {
                } else if i == p.len() {
                    assert(p[j] != s.last()) by {
                        if p[j] == s.last() {
                            assert(p.contains(s.last()));
                        }
                    }
                } else {
                    assert(p[i] != s.last()) by {
                        if p[i] == s.last() {
                            assert(p.contains(s.last()));
                        }
                    }
                }
            }
        }
    }
}

/// The keys of a tag list, in order.
pub open spec fn tag_keys(tags: Seq<TagView>) -> Seq<Seq<char>> {
    tags.map_values(|t: TagView| t.0)
}

/// The values of a tag list, in order.
pub open spec fn tag_values(tags: Seq<TagView>) -> Seq<ValueView> {
    tags.map_values(|t: TagView| t.1)
}

/// All tag pairs of a feature sequence, feature by feature, in input order.
pub open spec fn all_tags(features: Seq<FeatureView>) -> Seq<TagView>
    decreases features.len(),
{
    if features.len() == 0 {
        Seq::empty()
    } else {
        all_tags(features.drop_last()) + features.last().tags
    }
}

/// A layer's key table: every distinct tag key, in first-seen order.
pub open spec fn layer_keys(features: Seq<FeatureView>) -> Seq<Seq<char>> {
    dedup(tag_keys(all_tags(features)))
}

/// A layer's value table: every distinct tag value, in first-seen order.
pub open spec fn layer_values(features: Seq<FeatureView>) -> Seq<ValueView> {
    dedup(tag_values(all_tags(features)))
}

/// The first key (in input order) that repeats within one feature's tag
/// list, if any.
pub open spec fn dup_key(tags: Seq<TagView>) -> Option<Seq<char>>
    decreases tags.len(),
{
    if tags.len() == 0 {
        None
    } else if dup_key(tags.drop_last()) is Some {
        dup_key(tags.drop_last())
    } else if tag_keys(tags.drop_last()).contains(tags.last().0) {
        Some(tags.last().0)
    } else {
        None
    }
}

/// The first repeated key over a feature sequence, in input order.
pub open spec fn features_dup_key(features: Seq<FeatureView>) -> Option<Seq<char>>
    decreases features.len(),
{
    if features.len() == 0 {
        None
    } else if features_dup_key(features.drop_last()) is Some {
        features_dup_key(features.drop_last())
    } else {
        dup_key(features.last().tags)
    }
}

/// Whether some feature declares the id `id`.
pub open spec fn id_seen(features: Seq<FeatureView>, id: u64) -> bool {
    exists|k: int| 0 <= k < features.len() && features[k].id == Some(id)
}

/// The first feature id (in input order) already declared by an earlier
/// feature, if any. Features without an id never collide.
pub open spec fn dup_id(features: Seq<FeatureView>) -> Option<u64>
    decreases features.len(),
{
    if features.len() == 0 {
        None
    } else if dup_id(features.drop_last()) is Some {
        dup_id(features.drop_last())
    } else if features.last().id matches Some(id) && id_seen(features.drop_last(), id) {
        Some(features.last().id->0)
    } else {
        None
    }
}

/// A feature's tag list rewritten as index pairs into the layer tables: for
/// each tag, in order, the index of its key in `keys` then the index of its
/// value in `values`.
pub open spec fn encoded_tags_of(
    tags: Seq<TagView>,
    keys: Seq<Seq<char>>,
    values: Seq<ValueView>,
) -> Seq<u32>
    decreases tags.len(),
{
    if tags.len() == 0 {
        Seq::empty()
    } else {
        encoded_tags_of(tags.drop_last(), keys, values) + seq![
            keys.index_of(tags.last().0) as u32,
            values.index_of(tags.last().1) as u32,
        ]
    }
}

/// The view of an executable key table.
pub open spec fn keys_model(keys: Seq<String>) -> Seq<Seq<char>> {
    keys.map_values(|s: String| s@)
}

/// The view of an executable value table.
pub open spec fn values_model(values: Seq<Value>) -> Seq<ValueView> {
    values.map_values(|v: Value| v@)
}

/// The views of a feature list.
pub open spec fn features_view(features: Seq<Feature>) -> Seq<FeatureView> {
    features.map_values(|f: Feature| f@)
}

fn find_key(keys: &Vec<String>, key: &String) -> (r: Option<usize>)
    ensures
        r matches Some(i) ==> i < keys@.len() && keys@[i as int]@ == key@ && (forall|j: int|
            0 <= j < i ==> keys@[j]@ != key@),
        r is None ==> forall|j: int| 0 <= j < keys@.len() ==> keys@[j]@ != key@,
{
    let mut i: usize = 0;
    while i < keys.len()
        invariant
            0 <= i <= keys@.len(),
            forall|j: int| 0 <= j < i ==> keys@[j]@ != key@,
        decreases keys@.len() - i,
    {
        if keys[i].eq(key) {
            return Some(i);
        }
        i = i + 1;
    }
    None
}

fn find_value(values: &Vec<Value>, value: &Value) -> (r: Option<usize>)
    ensures
        r matches Some(i) ==> i < values@.len() && values@[i as int]@ == value@ && (forall|j: int|
            0 <= j < i ==> values@[j]@ != value@),
        r is None ==> forall|j: int| 0 <= j < values@.len() ==> values@[j]@ != value@,
{
    let mut i: usize = 0;
    while i < values.len()
        invariant
            0 <= i <= values@.len(),
            forall|j: int| 0 <= j < i ==> values@[j]@ != value@,
        decreases values@.len() - i,
    {
        if values[i].eq_value(value) {
            return Some(i);
        }
        i = i + 1;
    }
    None
}

fn key_in_prefix(tags: &Vec<(String, Value)>, upto: usize, key: &String) -> (r: bool)
    requires
        upto <= tags@.len(),
    ensures
        r == tag_keys(tags_view(tags@).take(upto as int)).contains(key@),
{
    let mut m: usize = 0;
    while m < upto
        invariant
            0 <= m <= upto <= tags@.len(),
            forall|j: int| 0 <= j < m ==> tags@[j].0@ != key@,
        decreases upto - m,
    {
        if tags[m].0.eq(key) {
            proof {
                assert(tag_keys(tags_view(tags@).take(upto as int))[m as int] == tags@[m as int].0@);
            }
            return true;
        }
        m = m + 1;
    }
    proof {
        let tk = tag_keys(tags_view(tags@).take(upto as int));
        if tk.contains(key@) {
            let j = choose|j: int| 0 <= j < tk.len() && tk[j] == key@;
            assert(tags@[j].0@ == key@);
        }
    }
    false
}

/// Once a prefix of a tag list holds a repeated key, the whole list reports
/// the same first repeat.
proof fn lemma_dup_key_extend(tags: Seq<TagView>, m: int)
    requires
        0 <= m <= tags.len(),
        dup_key(tags.take(m)) is Some,
    ensures
        dup_key(tags) == dup_key(tags.take(m)),
    decreases tags.len() - m,
{
    if m == tags.len() {
        assert(tags.take(m) =~= tags);
    } else {
        assert(tags.drop_last().take(m) =~= tags.take(m));
        lemma_dup_key_extend(tags.drop_last(), m);
        assert(tags.drop_last() =~= tags.take(tags.len() - 1));
    }
}

/// Once a prefix of a feature list holds a repeated key, the whole list
/// reports the same first repeat.
proof fn lemma_features_dup_key_extend(features: Seq<FeatureView>, m: int)
    requires
        0 <= m <= features.len(),
        features_dup_key(features.take(m)) is Some,
    ensures
        features_dup_key(features) == features_dup_key(features.take(m)),
    decreases features.len() - m,
{
    if m == features.len() {
        assert(features.take(m) =~= features);
    } else {
        assert(features.drop_last().take(m) =~= features.take(m));
        lemma_features_dup_key_extend(features.drop_last(), m);
    }
}

/// Once a prefix of a feature list holds a repeated id, the whole list
/// reports the same first repeat.
proof fn lemma_dup_id_extend(features: Seq<FeatureView>, m: int)
    requires
        0 <= m <= features.len(),
        dup_id(features.take(m)) is Some,
    ensures
        dup_id(features) == dup_id(features.take(m)),
    decreases features.len() - m,
{
    if m == features.len() {
        assert(features.take(m) =~= features);
    } else {
        assert(features.drop_last().take(m) =~= features.take(m));
        lemma_dup_id_extend(features.drop_last(), m);
    }
}

/// A feature in wire-ready form: id, tag index pairs, geometry kind and
/// command stream.
#[derive(Debug, PartialEq, Eq)]
pub struct AssembledFeature {
    pub id: u64,
    pub tags: Vec<u32>,
    pub geom_type: GeomType,
    pub geometry: Vec<u32>,
}

/// The mathematical shape of an [`AssembledFeature`].
pub struct AssembledFeatureView {
    pub id: u64,
    pub tags: Seq<u32>,
    pub geom_type: GeomType,
    pub geometry: Seq<u32>,
}

impl View for AssembledFeature {
    type V = AssembledFeatureView;

    closed spec fn view(&self) -> AssembledFeatureView {
        AssembledFeatureView {
            id: self.id,
            tags: self.tags@,
            geom_type: self.geom_type,
            geometry: self.geometry@,
        }
    }
}

/// The views of an assembled feature list.
pub open spec fn assembled_views(features: Seq<AssembledFeature>) -> Seq<AssembledFeatureView> {
    features.map_values(|f: AssembledFeature| f@)
}

/// What a feature assembles to, given the layer's finished tables: an absent
/// id serializes as `0`, the tags become index pairs, the geometry is kept.
pub open spec fn assembled_of(
    f: FeatureView,
    keys: Seq<Seq<char>>,
    values: Seq<ValueView>,
) -> AssembledFeatureView {
    AssembledFeatureView {
        id: match f.id {
            Some(id) => id,
            None => 0,
        },
        tags: encoded_tags_of(f.tags, keys, values),
        geom_type: f.geometry.geom_type,
        geometry: f.geometry.commands,
    }
}

/// The ids declared by a feature sequence, in input order.
pub open spec fn some_ids(features: Seq<FeatureView>) -> Seq<u64>
    decreases features.len(),
{
    if features.len() == 0 {
        Seq::empty()
    } else {
        match features.last().id {
            Some(id) => some_ids(features.drop_last()).push(id),
            None => some_ids(features.drop_last()),
        }
    }
}

proof fn lemma_some_ids_contains(features: Seq<FeatureView>, id: u64)
    ensures
        some_ids(features).contains(id) <==> id_seen(features, id),
    decreases features.len(),
{
    if features.len() > 0 {
        lemma_some_ids_contains(features.drop_last(), id);
        let prefix = some_ids(features.drop_last());
        assert(id_seen(features, id) ==> id_seen(features.drop_last(), id) || features.last().id
            == Some(id)) by {
            if id_seen(features, id) {
                let k = choose|k: int| 0 <= k < features.len() && features[k].id == Some(id);
                if k < features.len() - 1 {
                    assert(features.drop_last()[k].id == Some(id));
                }
            }
        }
        assert(id_seen(features.drop_last(), id) ==> id_seen(features, id)) by {
            if id_seen(features.drop_last(), id) {
                let k = choose|k: int|
                    0 <= k < features.drop_last().len() && features.drop_last()[k].id == Some(id);
                assert(features[k].id == Some(id));
            }
        }
        assert(features.last().id == Some(id) ==> id_seen(features, id)) by {
            if features.last().id == Some(id) {
                assert(features[features.len() - 1].id == Some(id));
            }
        }
        if features.last().id is Some {
            let x = features.last().id->0;
            let q = prefix.push(x);
            assert(q.contains(id) ==> prefix.contains(id) || x == id) by {
                if q.contains(id) {
                    let k = choose|k: int| 0 <= k < q.len() && q[k] == id;
                    if k < prefix.len() {
                        assert(prefix[k] == id);
                    }
                }
            }
            assert(prefix.contains(id) ==> q.contains(id)) by {
                if prefix.contains(id) {
                    let k = choose|k: int| 0 <= k < prefix.len() && prefix[k] == id;
                    assert(q[k] == id);
                }
            }
            assert(x == id ==> q.contains(id)) by {
                assert(q[prefix.len() as int] == x);
            }
        }
    }
}

/// A named group of assembled features with its deduplicated key and value
/// tables and its extent.
#[derive(Debug, PartialEq, Eq)]
pub struct Layer {
    name: String,
    features: Vec<AssembledFeature>,
    keys: Vec<String>,
    values: Vec<Value>,
    pub extent: u32,
}

/// The mathematical shape of a [`Layer`].
pub struct LayerView {
    pub name: Seq<char>,
    pub features: Seq<AssembledFeatureView>,
    pub keys: Seq<Seq<char>>,
    pub values: Seq<ValueView>,
    pub extent: u32,
}

impl View for Layer {
    type V = LayerView;

    closed spec fn view(&self) -> LayerView {
        LayerView {
            name: self.name@,
            features: assembled_views(self.features@),
            keys: keys_model(self.keys@),
            values: values_model(self.values@),
            extent: self.extent,
        }
    }
}

fn contains_id(ids: &Vec<u64>, id: u64) -> (r: bool)
    ensures
        r == ids@.contains(id),
{
    let mut i: usize = 0;
    while i < ids.len()
        invariant
            0 <= i <= ids@.len(),
            forall|j: int| 0 <= j < i ==> ids@[j] != id,
        decreases ids@.len() - i,
    {
        if ids[i] == id {
            return true;
        }
        i = i + 1;
    }
    false
}

impl Layer {
    /// Builds the layer's deduplicated key and value tables and rewrites each
    /// feature's tags as index pairs into them, in input order; fails on the
    /// first key repeated within one feature.
    fn encode_features_tags(features: &Vec<Feature>) -> (r: Result<
        (Vec<String>, Vec<Value>, Vec<Vec<u32>>),
        SpecViolation,
    >)
        ensures
            r is Ok <==> features_dup_key(features_view(features@)) is None,
            r matches Ok(t) ==> {
                let fvs = features_view(features@);
                &&& keys_model(t.0@) == layer_keys(fvs)
                &&& values_model(t.1@) == layer_values(fvs)
                &&& t.2@.len() == fvs.len()
                &&& forall|i: int|
                    0 <= i < fvs.len() ==> (#[trigger] t.2@[i])@ == encoded_tags_of(
                        fvs[i].tags,
                        layer_keys(fvs),
                        layer_values(fvs),
                    )
            },
            r matches Err(e) ==> features_dup_key(features_view(features@)) matches Some(k) && e@
                == SpecViolationView::IdenticalAttributeKeys(k),
    {
        let ghost fvs = features_view(features@);
        let mut keys: Vec<String> = Vec::new();
        let mut values: Vec<Value> = Vec::new();
        let mut fi: usize = 0;
        proof {
            assert(all_tags(fvs.take(0)) =~= Seq::<TagView>::empty());
            assert(tag_keys(Seq::<TagView>::empty()) =~= Seq::<Seq<char>>::empty());
            assert(tag_values(Seq::<TagView>::empty()) =~= Seq::<ValueView>::empty());
            assert(keys_model(keys@) =~= Seq::<Seq<char>>::empty());
            assert(values_model(values@) =~= Seq::<ValueView>::empty());
        }
        while fi < features.len()
            invariant
                fvs == features_view(features@),
                fvs.len() == features@.len(),
                0 <= fi <= fvs.len(),
                keys_model(keys@) == dedup(tag_keys(all_tags(fvs.take(fi as int)))),
                values_model(values@) == dedup(tag_values(all_tags(fvs.take(fi as int)))),
                features_dup_key(fvs.take(fi as int)) is None,
            decreases fvs.len() - fi,
        {
            let ftags = &features[fi].tags;
            proof {
                assert(fvs[fi as int] == features@[fi as int]@);
                assert(tags_view(ftags@) == fvs[fi as int].tags);
            }
            let ghost base = all_tags(fvs.take(fi as int));
            let ghost tvs = tags_view(ftags@);
            let mut ti: usize = 0;
            proof {
                assert(tvs.take(0) =~= Seq::<TagView>::empty());
                assert(base + tvs.take(0) =~= base);
            }
            while ti < ftags.len()
                invariant
                    fvs == features_view(features@),
                    fvs.len() == features@.len(),
                    0 <= fi < fvs.len(),
                    0 <= ti <= ftags@.len(),
                    ftags@ == features@[fi as int].tags@,
                    tvs == tags_view(ftags@),
                    tvs == fvs[fi as int].tags,
                    base == all_tags(fvs.take(fi as int)),
                    keys_model(keys@) == dedup(tag_keys(base + tvs.take(ti as int))),
                    values_model(values@) == dedup(tag_values(base + tvs.take(ti as int))),
                    features_dup_key(fvs.take(fi as int)) is None,
                    dup_key(tvs.take(ti as int)) is None,
                decreases ftags@.len() - ti,
            {
                let key = &ftags[ti].0;
                proof {
                    assert(tvs[ti as int] == (ftags@[ti as int].0@, ftags@[ti as int].1@));
                }
                if key_in_prefix(ftags, ti, key) {
                    proof {
                        assert(tvs.take(ti + 1).drop_last() =~= tvs.take(ti as int));
                        assert(tvs.take(ti + 1).last() == tvs[ti as int]);
                        assert(dup_key(tvs.take(ti + 1)) == Some(key@));
                        lemma_dup_key_extend(tvs, ti + 1);
                        assert(dup_key(fvs[fi as int].tags) == Some(key@));
                        assert(fvs.take(fi + 1).drop_last() =~= fvs.take(fi as int));
                        assert(fvs.take(fi + 1).last() == fvs[fi as int]);
                        assert(features_dup_key(fvs.take(fi + 1)) == Some(key@));
                        lemma_features_dup_key_extend(fvs, fi + 1);
                        assert(features_dup_key(fvs) == Some(key@));
                    }
                    return Err(SpecViolation::IdenticalAttributeKeys(key.clone()));
                }
                let ghost flat = base + tvs.take(ti as int);
                let ghost tv: TagView = tvs[ti as int];
                proof {
                    assert(tvs.take(ti + 1).drop_last() =~= tvs.take(ti as int));
                    assert(tvs.take(ti + 1).last() == tvs[ti as int]);
                    assert(dup_key(tvs.take(ti + 1)) is None);
                    assert(base + tvs.take(ti + 1) =~= flat.push(tv));
                    assert(tag_keys(flat.push(tv)) =~= tag_keys(flat).push(tv.0));
                    assert(tag_values(flat.push(tv)) =~= tag_values(flat).push(tv.1));
                    lemma_dedup_contains(tag_keys(flat), tv.0);
                    lemma_dedup_contains(tag_values(flat), tv.1);
                    // one unfolding step of dedup on a pushed sequence
                    assert(tag_keys(flat).push(tv.0).drop_last() =~= tag_keys(flat));
                    assert(tag_values(flat).push(tv.1).drop_last() =~= tag_values(flat));
                }
                match find_key(&keys, key) {
                    Some(ki) => {
                        proof {
                            assert(keys_model(keys@)[ki as int] == tv.0);
                            assert(keys_model(keys@).contains(tv.0));
                        }
                    },
                    None => {
                        proof {
                            if keys_model(keys@).contains(tv.0) {
                                let j = choose|j: int|
                                    0 <= j < keys_model(keys@).len() && keys_model(keys@)[j]
                                        == tv.0;
                                assert(keys@[j]@ == tv.0);
                            }
                        }
                        keys.push(key.clone());
                        proof {
                            assert(keys_model(keys@) =~= dedup(tag_keys(flat)).push(tv.0));
                        }
                    },
                }
                let value = &ftags[ti].1;
                match find_value(&values, value) {
                    Some(vi) => {
                        proof {
                            assert(values_model(values@)[vi as int] == tv.1);
                            assert(values_model(values@).contains(tv.1));
                        }
                    },
                    None => {
                        proof {
                            if values_model(values@).contains(tv.1) {
                                let j = choose|j: int|
                                    0 <= j < values_model(values@).len() && values_model(values@)[j]
                                        == tv.1;
                                assert(values@[j]@ == tv.1);
                            }
                        }
                        values.push(value.clone());
                        proof {
                            assert(values_model(values@) =~= dedup(tag_values(flat)).push(tv.1));
                        }
                    },
                }
                ti = ti + 1;
            }
            proof {
                assert(tvs.take(ftags@.len() as int) =~= tvs);
                assert(fvs.take(fi + 1).drop_last() =~= fvs.take(fi as int));
                assert(fvs.take(fi + 1).last() == fvs[fi as int]);
                assert(all_tags(fvs.take(fi + 1)) == all_tags(fvs.take(fi as int)) + fvs[fi as int].tags);
                assert(base + tvs =~= all_tags(fvs.take(fi + 1)));
            }
            fi = fi + 1;
        }
        proof {
            assert(fvs.take(fvs.len() as int) =~= fvs);
        }
        // Second pass: every key and value is now in its table; rewrite each
        // feature's tags as index pairs.
        let encoded = Self::encode_tag_indices(features, &keys, &values);
        Ok((keys, values, encoded))
    }

    /// Rewrites each feature's tags as index pairs into the finished tables.
    fn encode_tag_indices(features: &Vec<Feature>, keys: &Vec<String>, values: &Vec<Value>) -> (r:
        Vec<Vec<u32>>)
        requires
            keys_model(keys@) == layer_keys(features_view(features@)),
            values_model(values@) == layer_values(features_view(features@)),
        ensures
            r@.len() == features@.len(),
            forall|i: int|
                0 <= i < features@.len() ==> (#[trigger] r@[i])@ == encoded_tags_of(
                    features_view(features@)[i].tags,
                    layer_keys(features_view(features@)),
                    layer_values(features_view(features@)),
                ),
    {
        let ghost fvs = features_view(features@);
        let ghost kt = layer_keys(fvs);
        let ghost vt = layer_values(fvs);
        proof {
            lemma_dedup_no_dup(tag_keys(all_tags(fvs)));
            lemma_dedup_no_dup(tag_values(all_tags(fvs)));
        }
        let mut encoded: Vec<Vec<u32>> = Vec::new();
        let mut fi: usize = 0;
        while fi < features.len()
            invariant
                fvs == features_view(features@),
                fvs.len() == features@.len(),
                keys_model(keys@) == kt,
                values_model(values@) == vt,
                kt == layer_keys(fvs),
                vt == layer_values(fvs),
                kt.no_duplicates(),
                vt.no_duplicates(),
                0 <= fi <= fvs.len(),
                encoded@.len() == fi,
                forall|i: int|
                    0 <= i < fi ==> (#[trigger] encoded@[i])@ == encoded_tags_of(
                        fvs[i].tags,
                        kt,
                        vt,
                    ),
            decreases fvs.len() - fi,
        {
            let ftags = &features[fi].tags;
            proof {
                assert(fvs[fi as int] == features@[fi as int]@);
                assert(tags_view(ftags@) == fvs[fi as int].tags);
            }
            let ghost tvs = tags_view(ftags@);
            let mut current: Vec<u32> = Vec::new();
            let mut ti: usize = 0;
            proof {
                assert(tvs.take(0) =~= Seq::<TagView>::empty());
                assert(current@ =~= encoded_tags_of(tvs.take(0), kt, vt));
            }
            while ti < ftags.len()
                invariant
                    fvs == features_view(features@),
                    fvs.len() == features@.len(),
                    keys_model(keys@) == kt,
                    values_model(values@) == vt,
                    kt == layer_keys(fvs),
                    vt == layer_values(fvs),
                    kt.no_duplicates(),
                    vt.no_duplicates(),
                    0 <= fi < fvs.len(),
                    0 <= ti <= ftags@.len(),
                    ftags@ == features@[fi as int].tags@,
                    tvs == tags_view(ftags@),
                    tvs == fvs[fi as int].tags,
                    current@ == encoded_tags_of(tvs.take(ti as int), kt, vt),
                decreases ftags@.len() - ti,
            {
                let key = &ftags[ti].0;
                let value = &ftags[ti].1;
                let ghost tv: TagView = tvs[ti as int];
                proof {
                    assert(tv == (ftags@[ti as int].0@, ftags@[ti as int].1@));
                    lemma_tag_in_tables(fvs, fi as int, ti as int);
                }
                let ki = match find_key(keys, key) {
                    Some(ki) => ki,
                    None => {
                        proof {
                            let j = choose|j: int| 0 <= j < kt.len() && kt[j] == tv.0;
                            assert(keys@[j]@ == tv.0);
                        }
                        unreached()
                    },
                };
                let vi = match find_value(values, value) {
                    Some(vi) => vi,
                    None => {
                        proof {
                            let j = choose|j: int| 0 <= j < vt.len() && vt[j] == tv.1;
                            assert(values@[j]@ == tv.1);
                        }
                        unreached()
                    },
                };
                proof {
                    assert(kt[ki as int] == tv.0);
                    assert(kt[kt.index_of(tv.0)] == tv.0);
                    assert(ki as int == kt.index_of(tv.0));
                    assert(vt[vi as int] == tv.1);
                    assert(vt[vt.index_of(tv.1)] == tv.1);
                    assert(vi as int == vt.index_of(tv.1));
                }
                current.push(#[verifier::truncate] (ki as u32));
                current.push(#[verifier::truncate] (vi as u32));
                proof {
                    assert(tvs.take(ti + 1).drop_last() =~= tvs.take(ti as int));
                    assert(tvs.take(ti + 1).last() == tv);
                    assert(current@ =~= encoded_tags_of(tvs.take(ti as int), kt, vt) + seq![
                        kt.index_of(tv.0) as u32,
                        vt.index_of(tv.1) as u32,
                    ]);
                }
                ti = ti + 1;
            }
            proof {
                assert(tvs.take(ftags@.len() as int) =~= tvs);
            }
            encoded.push(current);
            fi = fi + 1;
        }
        encoded
    }
}

/// Every tag of every feature has its key in the layer's key table and its
/// value in the layer's value table.
proof fn lemma_tag_in_tables(features: Seq<FeatureView>, i: int, j: int)
    requires
        0 <= i < features.len(),
        0 <= j < features[i].tags.len(),
    ensures
        layer_keys(features).contains(features[i].tags[j].0),
        layer_values(features).contains(features[i].tags[j].1),
{
    lemma_all_tags_contains(features, i, j);
    let t = features[i].tags[j];
    let at = all_tags(features);
    let k = choose|k: int| 0 <= k < at.len() && at[k] == t;
    assert(tag_keys(at)[k] == t.0);
    assert(tag_values(at)[k] == t.1);
    lemma_dedup_contains(tag_keys(at), t.0);
    lemma_dedup_contains(tag_values(at), t.1);
}

/// Every tag of every feature occurs among the layer's flattened tags.
proof fn lemma_all_tags_contains(features: Seq<FeatureView>, i: int, j: int)
    requires
        0 <= i < features.len(),
        0 <= j < features[i].tags.len(),
    ensures
        all_tags(features).contains(features[i].tags[j]),
    decreases features.len(),
{
    let t = features[i].tags[j];
    if i == features.len() - 1 {
        let prefix = all_tags(features.drop_last());
        assert(all_tags(features)[prefix.len() + j] == t);
    } else {
        lemma_all_tags_contains(features.drop_last(), i, j);
        let sub = all_tags(features.drop_last());
        let k = choose|k: int| 0 <= k < sub.len() && sub[k] == t;
        assert(all_tags(features)[k] == t);
    }
}

impl Layer {
    /// Checks id uniqueness among the id-bearing features, in input order,
    /// and lowers each feature into wire-ready form: an absent id serializes
    /// as `0`, the tags are the precomputed index pairs, the geometry is
    /// kept.
    fn encode_features(features: &Vec<Feature>, encoded_tags: &Vec<Vec<u32>>) -> (r: Result<
        Vec<AssembledFeature>,
        SpecViolation,
    >)
        requires
            encoded_tags@.len() == features@.len(),
        ensures
            r is Ok <==> dup_id(features_view(features@)) is None,
            r matches Ok(v) ==> {
                let fvs = features_view(features@);
                &&& v@.len() == fvs.len()
                &&& forall|i: int|
                    0 <= i < fvs.len() ==> (#[trigger] v@[i])@ == (AssembledFeatureView {
                        id: match fvs[i].id {
                            Some(id) => id,
                            None => 0,
                        },
                        tags: encoded_tags@[i]@,
                        geom_type: fvs[i].geometry.geom_type,
                        geometry: fvs[i].geometry.commands,
                    })
            },
            r matches Err(e) ==> dup_id(features_view(features@)) matches Some(id) && e@
                == SpecViolationView::IdenticalFeatureIds(id),
    {
        let ghost fvs = features_view(features@);
        let mut assembled: Vec<AssembledFeature> = Vec::new();
        let mut ids: Vec<u64> = Vec::new();
        let mut fi: usize = 0;
        proof {
            assert(some_ids(fvs.take(0)) =~= Seq::<u64>::empty());
            assert(ids@ =~= Seq::<u64>::empty());
        }
        while fi < features.len()
            invariant
                fvs == features_view(features@),
                fvs.len() == features@.len(),
                encoded_tags@.len() == features@.len(),
                0 <= fi <= fvs.len(),
                ids@ == some_ids(fvs.take(fi as int)),
                dup_id(fvs.take(fi as int)) is None,
                assembled@.len() == fi,
                forall|i: int|
                    0 <= i < fi ==> (#[trigger] assembled@[i])@ == (AssembledFeatureView {
                        id: match fvs[i].id {
                            Some(id) => id,
                            None => 0,
                        },
                        tags: encoded_tags@[i]@,
                        geom_type: fvs[i].geometry.geom_type,
                        geometry: fvs[i].geometry.commands,
                    }),
            decreases fvs.len() - fi,
        {
            let f = &features[fi];
            proof {
                assert(fvs[fi as int] == features@[fi as int]@);
                assert(fvs.take(fi + 1).drop_last() =~= fvs.take(fi as int));
                assert(fvs.take(fi + 1).last() == fvs[fi as int]);
            }
            let id: u64 = match f.id {
                Some(id) => {
                    if contains_id(&ids, id) {
                        proof {
                            lemma_some_ids_contains(fvs.take(fi as int), id);
                            assert(dup_id(fvs.take(fi + 1)) == Some(id));
                            lemma_dup_id_extend(fvs, fi + 1);
                        }
                        return Err(SpecViolation::IdenticalFeatureIds(id));
                    }
                    proof {
                        lemma_some_ids_contains(fvs.take(fi as int), id);
                        assert(some_ids(fvs.take(fi + 1)) =~= some_ids(fvs.take(fi as int)).push(
                            id,
                        ));
                    }
                    ids.push(id);
                    id
                },
                None => {
                    proof {
                        assert(some_ids(fvs.take(fi + 1)) =~= some_ids(fvs.take(fi as int)));
                    }
                    0
                },
            };
            let af = AssembledFeature {
                id,
                tags: clone_words(&encoded_tags[fi]),
                geom_type: f.geometry.geom_type(),
                geometry: clone_words(f.geometry.commands()),
            };
            assembled.push(af);
            fi = fi + 1;
        }
        proof {
            assert(fvs.take(fvs.len() as int) =~= fvs);
        }
        Ok(assembled)
    }

    /// Validates and assembles a layer from its name and features.
    ///
    /// Fails on an empty feature list, then on the first key repeated within
    /// one feature, then on the first feature id already declared by an
    /// earlier feature — in that order. On success the layer carries the
    /// deduplicated key and value tables in first-seen order, each feature
    /// lowered against them, and the default extent.
    pub fn new(name: &str, features: Vec<Feature>) -> (r: Result<Layer, SpecViolation>)
        ensures
            r is Ok <==> {
                let fvs = features_view(features@);
                fvs.len() > 0 && features_dup_key(fvs) is None && dup_id(fvs) is None
            },
            r matches Ok(layer) ==> {
                let fvs = features_view(features@);
                &&& layer@.name == name@
                &&& layer@.extent == DEFAULT_EXTENT
                &&& layer@.keys == layer_keys(fvs)
                &&& layer@.values == layer_values(fvs)
                &&& layer@.features.len() == fvs.len()
                &&& forall|i: int|
                    0 <= i < fvs.len() ==> layer@.features[i] == assembled_of(
                        fvs[i],
                        layer_keys(fvs),
                        layer_values(fvs),
                    )
            },
            r matches Err(e) ==> {
                let fvs = features_view(features@);
                ||| fvs.len() == 0 && e@ == SpecViolationView::EmptyLayer
                ||| fvs.len() > 0 && (features_dup_key(fvs) matches Some(k) && e@
                    == SpecViolationView::IdenticalAttributeKeys(k))
                ||| fvs.len() > 0 && features_dup_key(fvs) is None && (dup_id(
                    fvs,
                ) matches Some(id) && e@ == SpecViolationView::IdenticalFeatureIds(id))
            },
    {
        let ghost fvs = features_view(features@);
        if features.is_empty() {
            return Err(SpecViolation::EmptyLayer);
        }
        let (keys, values, encoded) = match Self::encode_features_tags(&features) {
            Ok(t) => t,
            Err(e) => {
                return Err(e);
            },
        };
        let assembled = match Self::encode_features(&features, &encoded) {
            Ok(a) => a,
            Err(e) => {
                return Err(e);
            },
        };
        let layer = Layer {
            name: name.to_owned(),
            features: assembled,
            keys,
            values,
            extent: DEFAULT_EXTENT,
        };
        proof {
            assert forall|i: int| 0 <= i < fvs.len() implies layer@.features[i] == assembled_of(
                fvs[i],
                layer_keys(fvs),
                layer_values(fvs),
            ) by {
                assert(layer@.features[i] == assembled@[i]@);
            }
        }
        Ok(layer)
    }

    /// The layer's name.
    pub fn name(&self) -> (r: &str)
        ensures
            r@ == self@.name,
    {
        self.name.as_str()
    }

    /// The layer's assembled features, in input order.
    pub fn features(&self) -> (r: &Vec<AssembledFeature>)
        ensures
            assembled_views(r@) == self@.features,
    {
        &self.features
    }

    /// The layer's key table, in first-seen order.
    pub fn keys(&self) -> (r: &Vec<String>)
        ensures
            keys_model(r@) == self@.keys,
    {
        &self.keys
    }

    /// The layer's value table, in first-seen order.
    pub fn values(&self) -> (r: &Vec<Value>)
        ensures
            values_model(r@) == self@.values,
    {
        &self.values
    }
}

/// An ordered list of named layers, ready for serialization.
#[derive(Debug, PartialEq, Eq)]
pub struct Tile {
    layers: Vec<Layer>,
}

/// The mathematical shape of a [`Tile`].
pub struct TileView {
    pub layers: Seq<LayerView>,
}

impl View for Tile {
    type V = TileView;

    closed spec fn view(&self) -> TileView {
        TileView { layers: layers_view(self.layers@) }
    }
}

/// The views of a layer list.
pub open spec fn layers_view(layers: Seq<Layer>) -> Seq<LayerView> {
    layers.map_values(|l: Layer| l@)
}

/// Whether some layer carries the name `name`.
pub open spec fn name_seen(layers: Seq<LayerView>, name: Seq<char>) -> bool {
    exists|k: int| 0 <= k < layers.len() && layers[k].name == name
}

/// The first layer name (in input order) already carried by an earlier
/// layer, if any.
pub open spec fn dup_name(layers: Seq<LayerView>) -> Option<Seq<char>>
    decreases layers.len(),
{
    if layers.len() == 0 {
        None
    } else if dup_name(layers.drop_last()) is Some {
        dup_name(layers.drop_last())
    } else if name_seen(layers.drop_last(), layers.last().name) {
        Some(layers.last().name)
    } else {
        None
    }
}

/// Once a prefix of a layer list holds a repeated name, the whole list
/// reports the same first repeat.
proof fn lemma_dup_name_extend(layers: Seq<LayerView>, m: int)
    requires
        0 <= m <= layers.len(),
        dup_name(layers.take(m)) is Some,
    ensures
        dup_name(layers) == dup_name(layers.take(m)),
    decreases layers.len() - m,
{
    if m == layers.len() {
        assert(layers.take(m) =~= layers);
    } else {
        assert(layers.drop_last().take(m) =~= layers.take(m));
        lemma_dup_name_extend(layers.drop_last(), m);
    }
}

fn name_in_prefix(layers: &Vec<Layer>, upto: usize, name: &String) -> (r: bool)
    requires
        upto <= layers@.len(),
    ensures
        r == name_seen(layers_view(layers@).take(upto as int), name@),
{
    let ghost lvs = layers_view(layers@);
    let mut i: usize = 0;
    while i < upto
        invariant
            0 <= i <= upto <= layers@.len(),
            lvs == layers_view(layers@),
            forall|j: int| 0 <= j < i ==> (#[trigger] lvs[j]).name != name@,
        decreases upto - i,
    {
        if layers[i].name.eq(name) {
            proof {
                assert(lvs.take(upto as int)[i as int].name == name@);
            }
            return true;
        }
        proof {
            assert(lvs[i as int] == layers@[i as int]@);
        }
        i = i + 1;
    }
    proof {
        if name_seen(lvs.take(upto as int), name@) {
            let k = choose|k: int|
                0 <= k < upto && lvs.take(upto as int)[k].name == name@;
            assert(lvs[k].name == name@);
        }
    }
    false
}

impl Tile {
    /// Validates and assembles a tile from its layers.
    ///
    /// Fails on an empty layer list, then on the first layer whose name an
    /// earlier layer already carries, byte for byte.
    pub fn new(layers: Vec<Layer>) -> (r: Result<Tile, SpecViolation>)
        ensures
            r is Ok <==> {
                let lvs = layers_view(layers@);
                lvs.len() > 0 && dup_name(lvs) is None
            },
            r matches Ok(t) ==> t@.layers == layers_view(layers@),
            r matches Err(e) ==> {
                let lvs = layers_view(layers@);
                ||| lvs.len() == 0 && e@ == SpecViolationView::EmptyTile
                ||| lvs.len() > 0 && (dup_name(lvs) matches Some(n) && e@
                    == SpecViolationView::IdenticalLayerNames(n))
            },
    {
        let ghost lvs = layers_view(layers@);
        if layers.is_empty() {
            return Err(SpecViolation::EmptyTile);
        }
        let mut i: usize = 0;
        while i < layers.len()
            invariant
                lvs == layers_view(layers@),
                lvs.len() == layers@.len(),
                0 <= i <= lvs.len(),
                dup_name(lvs.take(i as int)) is None,
            decreases lvs.len() - i,
        {
            proof {
                assert(lvs[i as int] == layers@[i as int]@);
                assert(lvs.take(i + 1).drop_last() =~= lvs.take(i as int));
                assert(lvs.take(i + 1).last() == lvs[i as int]);
            }
            if name_in_prefix(&layers, i, &layers[i].name) {
                let name = layers[i].name.clone();
                proof {
                    assert(dup_name(lvs.take(i + 1)) == Some(lvs[i as int].name));
                    lemma_dup_name_extend(lvs, i + 1);
                }
                return Err(SpecViolation::IdenticalLayerNames(name));
            }
            i = i + 1;
        }
        proof {
            assert(lvs.take(lvs.len() as int) =~= lvs);
        }
        Ok(Tile { layers })
    }

    /// The tile's layers, in input order.
    pub fn layers(&self) -> (r: &Vec<Layer>)
        ensures
            layers_view(r@) == self@.layers,
    {
        &self.layers
    }
}

/// The index-pair list of a tag list is twice as long as the tag list.
pub proof fn lemma_encoded_tags_len(tags: Seq<TagView>, keys: Seq<Seq<char>>, values: Seq<ValueView>)
    ensures
        encoded_tags_of(tags, keys, values).len() == 2 * tags.len(),
    decreases tags.len(),
{
    if tags.len() > 0 {
        lemma_encoded_tags_len(tags.drop_last(), keys, values);
    }
}

/// The index pair of the tag at position `a`: the key index then the value
/// index, at positions `2 * a` and `2 * a + 1`.
pub proof fn lemma_encoded_tags_index(
    tags: Seq<TagView>,
    keys: Seq<Seq<char>>,
    values: Seq<ValueView>,
    a: int,
)
    requires
        0 <= a < tags.len(),
    ensures
        encoded_tags_of(tags, keys, values)[2 * a] == keys.index_of(tags[a].0) as u32,
        encoded_tags_of(tags, keys, values)[2 * a + 1] == values.index_of(tags[a].1) as u32,
    decreases tags.len(),
{
    lemma_encoded_tags_len(tags.drop_last(), keys, values);
    if a == tags.len() - 1 {
    } else {
        lemma_encoded_tags_index(tags.drop_last(), keys, values, a);
        assert(tags.drop_last()[a] == tags[a]);
    }
}

/// Interning is shared and exact: a layer's key and value tables hold no
/// duplicate entries, and two features that carry an identical tag pair
/// reference the same key index and the same value index.
pub proof fn lemma_shared_tags_share_indices(
    features: Seq<FeatureView>,
    i: int,
    j: int,
    a: int,
    b: int,
)
    requires
        0 <= i < features.len(),
        0 <= j < features.len(),
        0 <= a < features[i].tags.len(),
        0 <= b < features[j].tags.len(),
        features[i].tags[a] == features[j].tags[b],
    ensures
        layer_keys(features).no_duplicates(),
        layer_values(features).no_duplicates(),
        encoded_tags_of(features[i].tags, layer_keys(features), layer_values(features))[2 * a]
            == encoded_tags_of(features[j].tags, layer_keys(features), layer_values(features))[2
            * b],
        encoded_tags_of(features[i].tags, layer_keys(features), layer_values(features))[2 * a + 1]
            == encoded_tags_of(features[j].tags, layer_keys(features), layer_values(features))[2
            * b + 1],
{
    lemma_dedup_no_dup(tag_keys(all_tags(features)));
    lemma_dedup_no_dup(tag_values(all_tags(features)));
    lemma_encoded_tags_index(features[i].tags, layer_keys(features), layer_values(features), a);
    lemma_encoded_tags_index(features[j].tags, layer_keys(features), layer_values(features), b);
}

} // verus!
