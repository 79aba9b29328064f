//! The indexed dataset and its queries.

use std::collections::HashMap;
use std::hash::Hash;

use vstd::prelude::*;
use vstd::std_specs::hash::obeys_key_model;

use crate::coco_types::{
    Annotation, COCOCategory, COCODetection, COCODetectionView, COCOEntry, COCOImage,
    COCOPredictions, annotation_ids_of, category_ids_of, image_ids_of,
};
use crate::seq_spec::{
    contains_id, deref_opt, derefs, extend_somes, grouped, last_positions, lemma_last_positions,
    dedup_sorted, lemma_sorted_distinct, opt_view, somes, sort_ids, sorted_distinct, strictly_increasing,
};

verus! {

broadcast use vstd::std_specs::hash::group_hash_axioms;

/// The content of a map whose values are vectors, with each vector taken by its view.
pub open spec fn lists_view<K, V>(m: Map<K, Vec<V>>) -> Map<K, Seq<V>> {
    m.map_values(|v: Vec<V>| v@)
}

/// For each image id, the ids of its annotations in dataset order.
pub open spec fn annotation_ids_by_image(d: COCODetectionView) -> Map<u32, Seq<u128>> {
    grouped(d.annotations.map_values(|a: Annotation| (a.image_id, a.id)))
}

/// For each category id, the image ids of its annotations in dataset order
/// (an image occurs once per annotation).
pub open spec fn image_ids_by_category(d: COCODetectionView) -> Map<u32, Seq<u32>> {
    grouped(d.annotations.map_values(|a: Annotation| (a.category_id, a.image_id)))
}

/// For each category id, the ids of its annotations in dataset order.
pub open spec fn annotation_ids_by_category(d: COCODetectionView) -> Map<u32, Seq<u128>> {
    grouped(d.annotations.map_values(|a: Annotation| (a.category_id, a.id)))
}

/// Lookup tables from ids to positions and from images and categories to
/// their annotations.
pub struct COCOIndices {
    image_id_to_image: HashMap<u32, usize>,
    annotation_id_to_annotation: HashMap<u128, usize>,
    category_id_to_category: HashMap<u32, usize>,
    image_id_to_annotation_ids: HashMap<u32, Vec<u128>>,
    category_id_to_image_ids: HashMap<u32, Vec<u32>>,
    category_id_to_annotation_ids: HashMap<u32, Vec<u128>>,
}

impl COCOIndices {
    /// The tables are those of dataset `d`.
    pub closed spec fn describes(&self, d: COCODetectionView) -> bool {
        &&& self.image_id_to_image@ == last_positions(image_ids_of(d.images))
        &&& self.annotation_id_to_annotation@ == last_positions(annotation_ids_of(d.annotations))
        &&& self.category_id_to_category@ == last_positions(category_ids_of(d.categories))
        &&& lists_view(self.image_id_to_annotation_ids@) == annotation_ids_by_image(d)
        &&& lists_view(self.category_id_to_image_ids@) == image_ids_by_category(d)
        &&& lists_view(self.category_id_to_annotation_ids@) == annotation_ids_by_category(d)
    }

    /// Maps the id of each entry to the position of its last occurrence.
    pub fn create_index<T: COCOEntry>(entries: &[T]) -> (index: HashMap<T::Id, usize>) where
        T::Id: Eq + Hash + Copy,
        requires
            obeys_key_model::<T::Id>(),
        ensures
            index@ == last_positions(entries@.map_values(|e: T| e.entry_id())),
    {
        let mut entry_id_to_index: HashMap<T::Id, usize> = HashMap::with_capacity(entries.len());
        let ghost ids = entries@.map_values(|e: T| e.entry_id());
        let mut curr_index: usize = 0;
        while curr_index < entries.len()
            invariant
                curr_index <= entries@.len(),
                ids == entries@.map_values(|e: T| e.entry_id()),
                obeys_key_model::<T::Id>(),
                entry_id_to_index@ == last_positions(ids.take(curr_index as int)),
            decreases entries@.len() - curr_index,
        {
            let id = entries[curr_index].get_id();
            entry_id_to_index.insert(id, curr_index);
            proof {
                assert(ids.take(curr_index + 1).drop_last() =~= ids.take(curr_index as int));
            }
            curr_index = curr_index + 1;
        }
        proof {
            assert(ids.take(entries@.len() as int) =~= ids);
        }
        entry_id_to_index
    }
}

impl COCOIndices {
    /// Position of the image with each id.
    pub fn image_id_to_image(&self) -> (r: &HashMap<u32, usize>)
        ensures
            forall|d: COCODetectionView| #[trigger]
                self.describes(d) ==> r@ == last_positions(image_ids_of(d.images)),
    {
        &self.image_id_to_image
    }

    /// Position of the annotation with each id.
    pub fn annotation_id_to_annotation(&self) -> (r: &HashMap<u128, usize>)
        ensures
            forall|d: COCODetectionView| #[trigger]
                self.describes(d) ==> r@ == last_positions(annotation_ids_of(d.annotations)),
    {
        &self.annotation_id_to_annotation
    }

    /// Position of the category with each id.
    pub fn category_id_to_category(&self) -> (r: &HashMap<u32, usize>)
        ensures
            forall|d: COCODetectionView| #[trigger]
                self.describes(d) ==> r@ == last_positions(category_ids_of(d.categories)),
    {
        &self.category_id_to_category
    }

    /// The annotation ids of each image.
    pub fn image_id_to_annotation_ids(&self) -> (r: &HashMap<u32, Vec<u128>>)
        ensures
            forall|d: COCODetectionView| #[trigger]
                self.describes(d) ==> lists_view(r@) == annotation_ids_by_image(d),
    {
        &self.image_id_to_annotation_ids
    }

    /// The image ids of the annotations of each category.
    pub fn category_id_to_image_ids(&self) -> (r: &HashMap<u32, Vec<u32>>)
        ensures
            forall|d: COCODetectionView| #[trigger]
                self.describes(d) ==> lists_view(r@) == image_ids_by_category(d),
    {
        &self.category_id_to_image_ids
    }

    /// The annotation ids of each category.
    pub fn category_id_to_annotation_ids(&self) -> (r: &HashMap<u32, Vec<u128>>)
        ensures
            forall|d: COCODetectionView| #[trigger]
                self.describes(d) ==> lists_view(r@) == annotation_ids_by_category(d),
    {
        &self.category_id_to_annotation_ids
    }
}

/// Appends `v` to the list of key `k`, creating the list when `k` has none.
fn push_grouped<V>(m: &mut HashMap<u32, Vec<V>>, k: u32, v: V)
    ensures
        lists_view(final(m)@) == lists_view(old(m)@).insert(
            k,
            if old(m)@.contains_key(k) {
                old(m)@[k]@
            } else {
                Seq::empty()
            }.push(v),
        ),
{
    let mut list = match m.remove(&k) {
        Some(l) => l,
        None => Vec::new(),
    };
    list.push(v);
    m.insert(k, list);
    proof {
        assert(lists_view(final(m)@) =~= lists_view(old(m)@).insert(
            k,
            if old(m)@.contains_key(k) {
                old(m)@[k]@
            } else {
                Seq::empty()
            }.push(v),
        ));
    }
}

/// One step of `grouped`: the map of a sequence with one more pair.
proof fn lemma_grouped_push<K, V>(pairs: Seq<(K, V)>, k: K, v: V)
    ensures
        grouped(pairs.push((k, v))) == grouped(pairs).insert(
            k,
            if grouped(pairs).contains_key(k) {
                grouped(pairs)[k]
            } else {
                Seq::empty()
            }.push(v),
        ),
{
    assert(pairs.push((k, v)).drop_last() =~= pairs);
}

impl COCOIndices {
    /// Builds the tables of a dataset.
    pub fn new(coco_detections: &COCODetection) -> (indices: COCOIndices)
        ensures
            indices.describes(coco_detections@),
    {
        let images = coco_detections.images();
        let categories = coco_detections.categories();
        let annotations = coco_detections.annotations();
        let image_id_to_image = COCOIndices::create_index(images);
        let category_id_to_category = COCOIndices::create_index(categories);
        let annotation_id_to_annotation = COCOIndices::create_index(annotations);
        assert(images@.map_values(|e: COCOImage| e.entry_id()) =~= image_ids_of(images@));
        assert(categories@.map_values(|e: COCOCategory| e.entry_id()) =~= category_ids_of(
            categories@,
        ));
        assert(annotations@.map_values(|e: Annotation| e.entry_id()) =~= annotation_ids_of(
            annotations@,
        ));

        let mut image_id_to_annotation_ids: HashMap<u32, Vec<u128>> = HashMap::with_capacity(
            images.len(),
        );
        let mut category_id_to_image_ids: HashMap<u32, Vec<u32>> = HashMap::with_capacity(
            categories.len(),
        );
        let mut category_id_to_annotation_ids: HashMap<u32, Vec<u128>> = HashMap::with_capacity(
            categories.len(),
        );

        let ghost anns = annotations@;
        let ghost by_image = anns.map_values(|a: Annotation| (a.image_id, a.id));
        let ghost cat_images = anns.map_values(|a: Annotation| (a.category_id, a.image_id));
        let ghost by_cat = anns.map_values(|a: Annotation| (a.category_id, a.id));
        let mut i: usize = 0;
        while i < annotations.len()
            invariant
                i <= anns.len(),
                anns == annotations@,
                by_image == anns.map_values(|a: Annotation| (a.image_id, a.id)),
                cat_images == anns.map_values(|a: Annotation| (a.category_id, a.image_id)),
                by_cat == anns.map_values(|a: Annotation| (a.category_id, a.id)),
                lists_view(image_id_to_annotation_ids@) == grouped(by_image.take(i as int)),
                lists_view(category_id_to_image_ids@) == grouped(cat_images.take(i as int)),
                lists_view(category_id_to_annotation_ids@) == grouped(by_cat.take(i as int)),
            decreases anns.len() - i,
        {
            let coco_annotation = &annotations[i];
            proof {
                lemma_grouped_push(
                    by_image.take(i as int),
                    coco_annotation.image_id,
                    coco_annotation.id,
                );
                lemma_grouped_push(
                    cat_images.take(i as int),
                    coco_annotation.category_id,
                    coco_annotation.image_id,
                );
                lemma_grouped_push(
                    by_cat.take(i as int),
                    coco_annotation.category_id,
                    coco_annotation.id,
                );
                assert(by_image.take(i + 1) =~= by_image.take(i as int).push(
                    (coco_annotation.image_id, coco_annotation.id),
                ));
                assert(cat_images.take(i + 1) =~= cat_images.take(i as int).push(
                    (coco_annotation.category_id, coco_annotation.image_id),
                ));
                assert(by_cat.take(i + 1) =~= by_cat.take(i as int).push(
                    (coco_annotation.category_id, coco_annotation.id),
                ));
            }
            push_grouped(
                &mut image_id_to_annotation_ids,
                coco_annotation.image_id,
                coco_annotation.id,
            );
            push_grouped(
                &mut category_id_to_annotation_ids,
                coco_annotation.category_id,
                coco_annotation.id,
            );
            push_grouped(
                &mut category_id_to_image_ids,
                coco_annotation.category_id,
                coco_annotation.image_id,
            );
            i = i + 1;
        }
        proof {
            assert(by_image.take(anns.len() as int) =~= by_image);
            assert(cat_images.take(anns.len() as int) =~= cat_images);
            assert(by_cat.take(anns.len() as int) =~= by_cat);
        }

        COCOIndices {
            image_id_to_image,
            annotation_id_to_annotation,
            category_id_to_category,
            image_id_to_annotation_ids,
            category_id_to_image_ids,
            category_id_to_annotation_ids,
        }
    }
}

/// The image with id `id`: the last image of `d` that carries it.
pub open spec fn image_by_id(d: COCODetectionView, id: u32) -> Option<COCOImage> {
    let m = last_positions(image_ids_of(d.images));
    if m.contains_key(id) {
        Some(d.images[m[id] as int])
    } else {
        None
    }
}

/// The annotation with id `id`: the last annotation of `d` that carries it.
pub open spec fn annotation_by_id(d: COCODetectionView, id: u128) -> Option<Annotation> {
    let m = last_positions(annotation_ids_of(d.annotations));
    if m.contains_key(id) {
        Some(d.annotations[m[id] as int])
    } else {
        None
    }
}

/// The category with id `id`: the last category of `d` that carries it.
pub open spec fn category_by_id(d: COCODetectionView, id: u32) -> Option<COCOCategory> {
    let m = last_positions(category_ids_of(d.categories));
    if m.contains_key(id) {
        Some(d.categories[m[id] as int])
    } else {
        None
    }
}

/// The annotations that the ids of `ann_ids` name, in order; ids that name
/// no annotation are skipped.
pub open spec fn annotations_named(d: COCODetectionView, ann_ids: Seq<u128>) -> Seq<Annotation> {
    somes(ann_ids.map_values(|a: u128| annotation_by_id(d, a)))
}

/// The annotations listed under `key` in `groups`, or none when `key` has no list.
pub open spec fn annotations_listed(
    d: COCODetectionView,
    groups: Map<u32, Seq<u128>>,
    key: u32,
) -> Seq<Annotation> {
    if groups.contains_key(key) {
        annotations_named(d, groups[key])
    } else {
        Seq::empty()
    }
}

/// For each image id of `ids` in turn, the annotations of that image.
pub open spec fn annotations_of_images(d: COCODetectionView, ids: Seq<u32>) -> Seq<Annotation> {
    ids.map_values(|img: u32| annotations_listed(d, annotation_ids_by_image(d), img)).flatten()
}

/// For each category id of `ids` in turn, the annotations of that category.
pub open spec fn annotations_of_categories(d: COCODetectionView, ids: Seq<u32>) -> Seq<
    Annotation,
> {
    ids.map_values(|cat: u32| annotations_listed(d, annotation_ids_by_category(d), cat)).flatten()
}

/// A query that names no id finds no annotation.
proof fn lemma_no_ids_find_nothing(d: COCODetectionView, ids: Seq<u32>)
    requires
        ids.len() == 0,
    ensures
        annotations_of_images(d, ids).len() == 0,
        annotations_of_categories(d, ids).len() == 0,
{
    assert(ids.map_values(|img: u32| annotations_listed(d, annotation_ids_by_image(d), img))
        =~= Seq::<Seq<Annotation>>::empty());
    assert(ids.map_values(|cat: u32| annotations_listed(d, annotation_ids_by_category(d), cat))
        =~= Seq::<Seq<Annotation>>::empty());
}

/// The answer of a query that finds `found`: nothing when the query named no
/// key or found nothing, and else what it found.
pub open spec fn query_answer<A>(r: Option<Vec<&A>>, asked: bool, found: Seq<A>) -> bool {
    match r {
        None => !asked || found.len() == 0,
        Some(v) => asked && found.len() > 0 && derefs(v@) == found,
    }
}

/// Whether a filter query names any key: the image ids when they are given,
/// and else the category ids.
pub open spec fn filter_asked(image_ids: Option<Seq<u32>>, category_ids: Option<Seq<u32>>) -> bool {
    match (image_ids, category_ids) {
        (None, None) => false,
        (None, Some(cats)) => cats.len() > 0,
        (Some(imgs), _) => imgs.len() > 0,
    }
}

/// The annotations of `anns` whose category is one of `cats`, in order.
pub open spec fn in_categories(anns: Seq<Annotation>, cats: Seq<u32>) -> Seq<Annotation> {
    anns.filter(|a: Annotation| cats.contains(a.category_id))
}

/// The annotations that a filter query finds: those of the images when only
/// images are given, those of the categories when only categories are given,
/// and those of the images that belong to one of the categories when both are.
pub open spec fn annotations_from_filters(
    d: COCODetectionView,
    image_ids: Option<Seq<u32>>,
    category_ids: Option<Seq<u32>>,
) -> Seq<Annotation> {
    match (image_ids, category_ids) {
        (None, None) => Seq::empty(),
        (None, Some(cats)) => annotations_of_categories(d, cats),
        (Some(imgs), None) => annotations_of_images(d, imgs),
        (Some(imgs), Some(cats)) => in_categories(annotations_of_images(d, imgs), cats),
    }
}

/// The image ids of a sequence of annotations.
pub open spec fn image_ids_of_annotations(anns: Seq<Annotation>) -> Seq<u32> {
    anns.map_values(|a: Annotation| a.image_id)
}

/// The image ids listed under each category of `cats` in turn.
pub open spec fn images_of_categories(d: COCODetectionView, cats: Seq<u32>) -> Seq<u32> {
    cats.map_values(
        |c: u32|
            if image_ids_by_category(d).contains_key(c) {
                image_ids_by_category(d)[c]
            } else {
                Seq::empty()
            },
    ).flatten()
}

/// The image ids that a filter query collects, before sorting: those listed
/// under the categories when only categories are given, and else those of the
/// annotations that the query on annotations finds.
pub open spec fn image_candidates(
    d: COCODetectionView,
    image_ids: Option<Seq<u32>>,
    category_ids: Option<Seq<u32>>,
) -> Seq<u32> {
    match (image_ids, category_ids) {
        (None, None) => Seq::empty(),
        (None, Some(cats)) => images_of_categories(d, cats),
        (Some(imgs), _) => image_ids_of_annotations(
            annotations_from_filters(d, image_ids, category_ids),
        ),
    }
}

/// The images that a filter query finds: the images named by the distinct
/// candidate ids in increasing order, skipping ids that name no image.
pub open spec fn images_from_filters(
    d: COCODetectionView,
    image_ids: Option<Seq<u32>>,
    category_ids: Option<Seq<u32>>,
) -> Seq<COCOImage> {
    images_named(d, sorted_distinct(image_candidates(d, image_ids, category_ids)))
}

/// The images that the ids of `ids` name, in order; ids that name no image
/// are skipped.
pub open spec fn images_named(d: COCODetectionView, ids: Seq<u32>) -> Seq<COCOImage> {
    somes(ids.map_values(|id: u32| image_by_id(d, id)))
}

/// A dataset with its lookup tables, and the predictions loaded for it.
pub struct COCO {
    coco_dataset: COCODetection,
    root_dir: String,
    coco_indices: COCOIndices,
    coco_results: Option<COCOPredictions>,
}

impl COCO {
    #[verifier::type_invariant]
    closed spec fn indices_match(&self) -> bool {
        self.coco_indices.describes(self.coco_dataset@)
    }

    /// The dataset.
    pub closed spec fn dataset(&self) -> COCODetectionView {
        self.coco_dataset@
    }

    /// The predictions loaded, if any.
    pub closed spec fn results(&self) -> Option<COCOPredictions> {
        self.coco_results
    }

    /// The directory that holds the images.
    pub closed spec fn root(&self) -> Seq<char> {
        self.root_dir@
    }

    /// Indexes a dataset whose images lie under `root_dir`.
    pub fn new(root_dir: String, coco_dataset: COCODetection) -> (coco: COCO)
        ensures
            coco.dataset() == coco_dataset@,
            coco.root() == root_dir@,
            coco.results() is None,
    {
        let coco_indices = COCOIndices::new(&coco_dataset);
        COCO { coco_dataset, root_dir, coco_indices, coco_results: None }
    }

    /// The lookup tables.
    pub fn coco_indices(&self) -> (r: &COCOIndices)
        ensures
            r.describes(self.dataset()),
    {
        proof {
            use_type_invariant(self);
        }
        &self.coco_indices
    }

    /// The predictions loaded, if any.
    pub fn get_all_results(&self) -> (r: Option<&COCOPredictions>)
        ensures
            deref_opt(r) == self.results(),
    {
        if self.coco_results.is_none() {
            return None;
        }
        Some(self.coco_results.as_ref().unwrap())
    }

    /// Stores a set of predictions, replacing any loaded before.
    pub fn load_coco_predictions(&mut self, predictions: COCOPredictions)
        ensures
            final(self).dataset() == old(self).dataset(),
            final(self).root() == old(self).root(),
            final(self).results() == Some(predictions),
    {
        proof {
            use_type_invariant(&*self);
        }
        self.coco_results = Some(predictions);
    }

    /// All annotations, in dataset order.
    pub fn get_all_annotations(&self) -> (r: Vec<&Annotation>)
        ensures
            r@.len() == self.dataset().annotations.len(),
            forall|i: int| 0 <= i < r@.len() ==> *r@[i] == self.dataset().annotations[i],
    {
        let annotations = self.coco_dataset.annotations();
        let mut result: Vec<&Annotation> = Vec::with_capacity(annotations.len());
        let mut i: usize = 0;
        while i < annotations.len()
            invariant
                i <= annotations@.len(),
                annotations@ == self.dataset().annotations,
                result@.len() == i,
                forall|j: int| 0 <= j < i ==> *result@[j] == annotations@[j],
            decreases annotations@.len() - i,
        {
            result.push(&annotations[i]);
            i = i + 1;
        }
        result
    }

    /// The ids of all categories, in dataset order.
    pub fn get_all_category_ids(&self) -> (r: Vec<u32>)
        ensures
            r@ == category_ids_of(self.dataset().categories),
    {
        let categories = self.coco_dataset.categories();
        let mut result: Vec<u32> = Vec::with_capacity(categories.len());
        let mut i: usize = 0;
        while i < categories.len()
            invariant
                i <= categories@.len(),
                categories@ == self.dataset().categories,
                result@ == category_ids_of(categories@).take(i as int),
            decreases categories@.len() - i,
        {
            result.push(categories[i].id);
            i = i + 1;
            proof {
                assert(result@ =~= category_ids_of(categories@).take(i as int));
            }
        }
        proof {
            assert(category_ids_of(categories@).take(i as int) =~= category_ids_of(categories@));
        }
        result
    }

    /// The ids of all images, in dataset order.
    pub fn get_all_image_ids(&self) -> (r: Vec<u32>)
        ensures
            r@ == image_ids_of(self.dataset().images),
    {
        let images = self.coco_dataset.images();
        let mut result: Vec<u32> = Vec::with_capacity(images.len());
        let mut i: usize = 0;
        while i < images.len()
            invariant
                i <= images@.len(),
                images@ == self.dataset().images,
                result@ == image_ids_of(images@).take(i as int),
            decreases images@.len() - i,
        {
            result.push(images[i].id);
            i = i + 1;
            proof {
                assert(result@ =~= image_ids_of(images@).take(i as int));
            }
        }
        proof {
            assert(image_ids_of(images@).take(i as int) =~= image_ids_of(images@));
        }
        result
    }

    /// For each id of `ids`, the image with that id, if there is one.
    pub fn get_images_from_ids(&self, ids: &[u32]) -> (r: Vec<Option<&COCOImage>>)
        ensures
            r@.len() == ids@.len(),
            forall|i: int|
                0 <= i < ids@.len() ==> deref_opt(#[trigger] r@[i]) == image_by_id(
                    self.dataset(),
                    ids@[i],
                ),
    {
        proof {
            use_type_invariant(self);
            self.coco_dataset.lemma_lengths_fit();
            lemma_last_positions(image_ids_of(self.dataset().images));
        }
        let mut result: Vec<Option<&COCOImage>> = Vec::with_capacity(ids.len());
        let mut i: usize = 0;
        while i < ids.len()
            invariant
                i <= ids@.len(),
                self.coco_indices.describes(self.coco_dataset@),
                forall|k: u32| #[trigger]
                    last_positions(image_ids_of(self.dataset().images)).contains_key(k) ==> 0
                        <= last_positions(image_ids_of(self.dataset().images))[k]
                        < self.dataset().images.len(),
                result@.len() == i,
                forall|j: int|
                    0 <= j < i ==> deref_opt(#[trigger] result@[j]) == image_by_id(
                        self.dataset(),
                        ids@[j],
                    ),
            decreases ids@.len() - i,
        {
            let image_id = &ids[i];
            result.push(
                match self.coco_indices.image_id_to_image.get(image_id) {
                    None => None,
                    Some(index) => self.coco_dataset.get_image_at_index(*index),
                },
            );
            i = i + 1;
        }
        result
    }

    /// For each id of `ids`, the annotation with that id, if there is one.
    pub fn get_annotations_from_ids(&self, ids: &[u128]) -> (r: Vec<Option<&Annotation>>)
        ensures
            r@.len() == ids@.len(),
            forall|i: int|
                0 <= i < ids@.len() ==> deref_opt(#[trigger] r@[i]) == annotation_by_id(
                    self.dataset(),
                    ids@[i],
                ),
    {
        proof {
            use_type_invariant(self);
            self.coco_dataset.lemma_lengths_fit();
            lemma_last_positions(annotation_ids_of(self.dataset().annotations));
        }
        let mut result: Vec<Option<&Annotation>> = Vec::with_capacity(ids.len());
        let mut i: usize = 0;
        while i < ids.len()
            invariant
                i <= ids@.len(),
                self.coco_indices.describes(self.coco_dataset@),
                forall|k: u128| #[trigger]
                    last_positions(annotation_ids_of(self.dataset().annotations)).contains_key(k) ==> 0
                        <= last_positions(annotation_ids_of(self.dataset().annotations))[k]
                        < self.dataset().annotations.len(),
                result@.len() == i,
                forall|j: int|
                    0 <= j < i ==> deref_opt(#[trigger] result@[j]) == annotation_by_id(
                        self.dataset(),
                        ids@[j],
                    ),
            decreases ids@.len() - i,
        {
            let annotation_id = &ids[i];
            result.push(
                match self.coco_indices.annotation_id_to_annotation.get(annotation_id) {
                    None => None,
                    Some(index) => self.coco_dataset.get_annotation_at_index(*index),
                },
            );
            i = i + 1;
        }
        result
    }

    /// For each id of `ids`, the category with that id, if there is one.
    pub fn get_categories_from_ids(&self, ids: &[u32]) -> (r: Vec<Option<&COCOCategory>>)
        ensures
            r@.len() == ids@.len(),
            forall|i: int|
                0 <= i < ids@.len() ==> deref_opt(#[trigger] r@[i]) == category_by_id(
                    self.dataset(),
                    ids@[i],
                ),
    {
        proof {
            use_type_invariant(self);
            self.coco_dataset.lemma_lengths_fit();
            lemma_last_positions(category_ids_of(self.dataset().categories));
        }
        let mut result: Vec<Option<&COCOCategory>> = Vec::with_capacity(ids.len());
        let mut i: usize = 0;
        while i < ids.len()
            invariant
                i <= ids@.len(),
                self.coco_indices.describes(self.coco_dataset@),
                forall|k: u32| #[trigger]
                    last_positions(category_ids_of(self.dataset().categories)).contains_key(k) ==> 0
                        <= last_positions(category_ids_of(self.dataset().categories))[k]
                        < self.dataset().categories.len(),
                result@.len() == i,
                forall|j: int|
                    0 <= j < i ==> deref_opt(#[trigger] result@[j]) == category_by_id(
                        self.dataset(),
                        ids@[j],
                    ),
            decreases ids@.len() - i,
        {
            let category_id = &ids[i];
            result.push(
                match self.coco_indices.category_id_to_category.get(category_id) {
                    None => None,
                    Some(index) => self.coco_dataset.get_category_at_index(*index),
                },
            );
            i = i + 1;
        }
        result
    }

    /// Appends to `out` the annotations listed under `key` in `groups`.
    fn extend_with_listed<'a>(
        &'a self,
        out: &mut Vec<&'a Annotation>,
        groups: &HashMap<u32, Vec<u128>>,
        key: u32,
    )
        requires
            obeys_key_model::<u32>(),
        ensures
            derefs(final(out)@) == derefs(old(out)@) + annotations_listed(
                self.dataset(),
                lists_view(groups@),
                key,
            ),
    {
        if let Some(annot_ids) = groups.get(&key) {
            let found = self.get_annotations_from_ids(annot_ids.as_slice());
            proof {
                assert(found@.map_values(|o: Option<&Annotation>| deref_opt(o)) =~= annot_ids@.map_values(
                    |a: u128| annotation_by_id(self.dataset(), a),
                ));
            }
            extend_somes(out, found);
        }
    }

    /// For each image id of `ids` in turn, the annotations of that image;
    /// `None` when `ids` is empty or no annotation is found.
    pub fn get_possible_annotations_from_image_ids(&self, ids: &[u32]) -> (r: Option<
        Vec<&Annotation>,
    >)
        ensures
            query_answer(r, ids@.len() > 0, annotations_of_images(self.dataset(), ids@)),
            r is Some <==> annotations_of_images(self.dataset(), ids@).len() > 0,
            r matches Some(v) ==> derefs(v@) == annotations_of_images(self.dataset(), ids@),
    {
        proof {
            use_type_invariant(self);
        }
        if ids.len() == 0 {
            proof {
                lemma_no_ids_find_nothing(self.dataset(), ids@);
            }
            return None;
        }
        let ghost per_image = ids@.map_values(
            |img: u32| annotations_listed(self.dataset(), annotation_ids_by_image(self.dataset()), img),
        );
        let mut result: Vec<&Annotation> = Vec::with_capacity(ids.len());
        let mut i: usize = 0;
        while i < ids.len()
            invariant
                i <= ids@.len(),
                self.coco_indices.describes(self.coco_dataset@),
                per_image == ids@.map_values(
                    |img: u32|
                        annotations_listed(
                            self.dataset(),
                            annotation_ids_by_image(self.dataset()),
                            img,
                        ),
                ),
                derefs(result@) == per_image.take(i as int).flatten(),
            decreases ids@.len() - i,
        {
            self.extend_with_listed(&mut result, &self.coco_indices.image_id_to_annotation_ids, ids[i]);
            proof {
                assert(per_image.take(i + 1) =~= per_image.take(i as int).push(per_image[i as int]));
                per_image.take(i as int).lemma_flatten_push(per_image[i as int]);
            }
            i = i + 1;
        }
        proof {
            assert(per_image.take(ids@.len() as int) =~= per_image);
        }
        if result.len() == 0 {
            return None;
        }
        Some(result)
    }

    /// For each category id of `ids` in turn, the annotations of that category;
    /// `None` when `ids` is empty or no annotation is found.
    pub fn get_possible_annotations_from_category_ids(&self, ids: &[u32]) -> (r: Option<
        Vec<&Annotation>,
    >)
        ensures
            query_answer(r, ids@.len() > 0, annotations_of_categories(self.dataset(), ids@)),
            r is Some <==> annotations_of_categories(self.dataset(), ids@).len() > 0,
            r matches Some(v) ==> derefs(v@) == annotations_of_categories(self.dataset(), ids@),
    {
        proof {
            use_type_invariant(self);
        }
        if ids.len() == 0 {
            proof {
                lemma_no_ids_find_nothing(self.dataset(), ids@);
            }
            return None;
        }
        let ghost per_category = ids@.map_values(
            |cat: u32| annotations_listed(self.dataset(), annotation_ids_by_category(self.dataset()), cat),
        );
        let mut result: Vec<&Annotation> = Vec::with_capacity(ids.len());
        let mut i: usize = 0;
        while i < ids.len()
            invariant
                i <= ids@.len(),
                self.coco_indices.describes(self.coco_dataset@),
                per_category == ids@.map_values(
                    |cat: u32|
                        annotations_listed(
                            self.dataset(),
                            annotation_ids_by_category(self.dataset()),
                            cat,
                        ),
                ),
                derefs(result@) == per_category.take(i as int).flatten(),
            decreases ids@.len() - i,
        {
            self.extend_with_listed(
                &mut result,
                &self.coco_indices.category_id_to_annotation_ids,
                ids[i],
            );
            proof {
                assert(per_category.take(i + 1) =~= per_category.take(i as int).push(
                    per_category[i as int],
                ));
                per_category.take(i as int).lemma_flatten_push(per_category[i as int]);
            }
            i = i + 1;
        }
        proof {
            assert(per_category.take(ids@.len() as int) =~= per_category);
        }
        if result.len() == 0 {
            return None;
        }
        Some(result)
    }

    /// The annotations of `annots` whose category is one of `category_ids`.
    fn keep_in_categories<'a>(annots: Vec<&'a Annotation>, category_ids: &[u32]) -> (r: Vec<
        &'a Annotation,
    >)
        ensures
            derefs(r@) == in_categories(derefs(annots@), category_ids@),
    {
        let ghost all = derefs(annots@);
        let mut filtered: Vec<&Annotation> = Vec::new();
        let mut i: usize = 0;
        while i < annots.len()
            invariant
                i <= annots@.len(),
                all == derefs(annots@),
                derefs(filtered@) == in_categories(all.take(i as int), category_ids@),
            decreases annots@.len() - i,
        {
            let annot = annots[i];
            let ghost before = filtered@;
            if contains_id(category_ids, annot.category_id) {
                filtered.push(annot);
                proof {
                    assert(derefs(filtered@) =~= derefs(before).push(*annot));
                }
            }
            proof {
                assert(all.take(i + 1) =~= all.take(i as int).push(*annot));
                all.take(i as int).lemma_filter_push(
                    *annot,
                    |a: Annotation| category_ids@.contains(a.category_id),
                );
            }
            i = i + 1;
        }
        proof {
            assert(all.take(annots@.len() as int) =~= all);
        }
        filtered
    }

    /// The annotations found by image ids, by category ids, or by both (the
    /// annotations of the images that belong to one of the categories); `None`
    /// when no filter is given, when the filter that decides names no id, or
    /// when nothing is found.
    pub fn get_possible_annotations_from_filters(
        &self,
        image_ids: Option<&[u32]>,
        category_ids: Option<&[u32]>,
    ) -> (r: Option<Vec<&Annotation>>)
        ensures
            query_answer(
                r,
                filter_asked(opt_view(image_ids), opt_view(category_ids)),
                annotations_from_filters(self.dataset(), opt_view(image_ids), opt_view(category_ids)),
            ),
            r is Some <==> annotations_from_filters(
                self.dataset(),
                opt_view(image_ids),
                opt_view(category_ids),
            ).len() > 0,
            r matches Some(v) ==> derefs(v@) == annotations_from_filters(
                self.dataset(),
                opt_view(image_ids),
                opt_view(category_ids),
            ),
    {
        if image_ids.is_none() && category_ids.is_none() {
            return None;
        }
        if image_ids.is_none() {
            self.get_possible_annotations_from_category_ids(category_ids.unwrap())
        } else if category_ids.is_none() {
            self.get_possible_annotations_from_image_ids(image_ids.unwrap())
        } else {
            let filtered_by_image_ids = self.get_possible_annotations_from_image_ids(
                image_ids.unwrap(),
            );
            if let Some(filtered_annots) = filtered_by_image_ids {
                let filtered = Self::keep_in_categories(filtered_annots, category_ids.unwrap());
                if filtered.len() == 0 {
                    None
                } else {
                    Some(filtered)
                }
            } else {
                proof {
                    let found = annotations_of_images(self.dataset(), image_ids.unwrap()@);
                    let cats = category_ids.unwrap()@;
                    if found.len() == 0 {
                        assert(in_categories(found, cats).len() == 0) by {
                            found.lemma_filter_len(|a: Annotation| cats.contains(a.category_id));
                        }
                    }
                }
                return None;
            }
        }
    }

    /// The image ids of a list of annotations, in order.
    fn image_ids_of(annots: &Vec<&Annotation>) -> (r: Vec<u32>)
        ensures
            r@ == image_ids_of_annotations(derefs(annots@)),
    {
        let mut r: Vec<u32> = Vec::with_capacity(annots.len());
        let mut i: usize = 0;
        while i < annots.len()
            invariant
                i <= annots@.len(),
                r@ == image_ids_of_annotations(derefs(annots@)).take(i as int),
            decreases annots@.len() - i,
        {
            r.push(annots[i].image_id);
            i = i + 1;
            proof {
                assert(r@ =~= image_ids_of_annotations(derefs(annots@)).take(i as int));
            }
        }
        proof {
            assert(image_ids_of_annotations(derefs(annots@)).take(i as int)
                =~= image_ids_of_annotations(derefs(annots@)));
        }
        r
    }

    /// The image ids listed under each category of `category_ids` in turn.
    fn images_listed_for_categories(&self, category_ids: &[u32]) -> (r: Vec<u32>)
        ensures
            r@ == images_of_categories(self.dataset(), category_ids@),
    {
        proof {
            use_type_invariant(self);
        }
        let ghost per_category = category_ids@.map_values(
            |c: u32|
                if image_ids_by_category(self.dataset()).contains_key(c) {
                    image_ids_by_category(self.dataset())[c]
                } else {
                    Seq::empty()
                },
        );
        let mut valid_ids: Vec<u32> = Vec::new();
        let mut i: usize = 0;
        while i < category_ids.len()
            invariant
                i <= category_ids@.len(),
                self.coco_indices.describes(self.coco_dataset@),
                per_category == category_ids@.map_values(
                    |c: u32|
                        if image_ids_by_category(self.dataset()).contains_key(c) {
                            image_ids_by_category(self.dataset())[c]
                        } else {
                            Seq::empty()
                        },
                ),
                valid_ids@ == per_category.take(i as int).flatten(),
            decreases category_ids@.len() - i,
        {
            let ghost before = valid_ids@;
            if let Some(image_id) = self.coco_indices.category_id_to_image_ids.get(&category_ids[i]) {
                valid_ids.extend_from_slice(image_id.as_slice());
                proof {
                    assert(valid_ids@ =~= before + image_id@);
                }
            } else {
                proof {
                    assert(valid_ids@ =~= before + per_category[i as int]);
                }
            }
            proof {
                assert(per_category.take(i + 1) =~= per_category.take(i as int).push(
                    per_category[i as int],
                ));
                per_category.take(i as int).lemma_flatten_push(per_category[i as int]);
            }
            i = i + 1;
        }
        proof {
            assert(per_category.take(category_ids@.len() as int) =~= per_category);
        }
        valid_ids
    }

    /// The images found by image ids, by category ids, or by both: the
    /// distinct image ids collected are sorted and looked up; `None` when no
    /// image id is collected.
    pub fn get_possible_images_from_filters(
        &self,
        image_ids: Option<&[u32]>,
        category_ids: Option<&[u32]>,
    ) -> (r: Option<Vec<&COCOImage>>)
        ensures
            match r {
                None => image_candidates(
                    self.dataset(),
                    opt_view(image_ids),
                    opt_view(category_ids),
                ).len() == 0,
                Some(v) => image_candidates(
                    self.dataset(),
                    opt_view(image_ids),
                    opt_view(category_ids),
                ).len() > 0 && derefs(v@) == images_from_filters(
                    self.dataset(),
                    opt_view(image_ids),
                    opt_view(category_ids),
                ) && strictly_increasing(image_ids_of(derefs(v@))),
            },
    {
        if image_ids.is_none() && category_ids.is_none() {
            return None;
        }
        let mut valid_ids: Vec<u32>;
        if image_ids.is_none() {
            valid_ids = self.images_listed_for_categories(category_ids.unwrap());
        } else {
            let filtered_annots = self.get_possible_annotations_from_filters(image_ids, category_ids);
            valid_ids = match filtered_annots {
                Some(filtered_annots) => Self::image_ids_of(&filtered_annots),
                None => Vec::new(),
            };
        }
        let ghost candidates = valid_ids@;
        if valid_ids.len() == 0 {
            return None;
        }
        sort_ids(&mut valid_ids);
        let unique_ids = dedup_sorted(&valid_ids);
        proof {
            valid_ids@.to_multiset_ensures();
            candidates.to_multiset_ensures();
            assert forall|x: u32| #[trigger] valid_ids@.contains(x) == candidates.contains(x) by {
                assert(valid_ids@.to_multiset().count(x) == candidates.to_multiset().count(x));
            }
            assert(valid_ids@.to_set() =~= candidates.to_set());
            lemma_sorted_distinct(candidates, unique_ids@);
        }
        let ans = self.get_images_from_ids(unique_ids.as_slice());
        let mut result: Vec<&COCOImage> = Vec::new();
        proof {
            assert(ans@.map_values(|o: Option<&COCOImage>| deref_opt(o)) =~= unique_ids@.map_values(
                |id: u32| image_by_id(self.dataset(), id),
            ));
            assert(derefs(result@) =~= Seq::<COCOImage>::empty());
        }
        extend_somes(&mut result, ans);
        proof {
            assert(derefs(result@) =~= images_from_filters(
                self.dataset(),
                opt_view(image_ids),
                opt_view(category_ids),
            ));
            self.coco_dataset.lemma_lengths_fit();
            crate::laws::law_images_from_filters_sorted(
                self.dataset(),
                opt_view(image_ids),
                opt_view(category_ids),
            );
        }
        Some(result)
    }
}

} // verus!
