//! The records of a COCO detection dataset.
//!
//! Floating-point quantities (areas, boxes, scores) are carried as the
//! IEEE-754 bit patterns of their `f32` values: the library stores and
//! returns them unchanged and never interprets them.

use vstd::prelude::*;
use vstd::std_specs::iter::IteratorSpec;

use crate::seq_spec::{contains_id, derefs};

verus! {

/// A category of objects.
pub struct COCOCategory {
    pub supercategory: String,
    pub id: u32,
    pub name: String,
}

/// A run-length encoded segmentation mask.
pub struct Segmentation {
    pub counts: String,
    pub size: [u32; 2],
}

/// One ground-truth object annotation.
pub struct Annotation {
    /// Bit pattern of the `f32` area of the object.
    pub area: u32,
    pub iscrowd: u8,
    pub image_id: u32,
    /// Bit patterns of the `f32` box `[x, y, width, height]`.
    pub bbox: [u32; 4],
    pub category_id: u32,
    pub id: u128,
}

/// One image of the dataset.
pub struct COCOImage {
    pub license: Option<u32>,
    pub filename: Option<String>,
    pub coco_url: Option<String>,
    pub height: u32,
    pub width: u32,
    pub data_captured: Option<String>,
    pub flickr_url: Option<String>,
    pub id: u32,
}

/// The whole dataset: images, annotations and categories, in file order.
pub struct COCODetection {
    images: Vec<COCOImage>,
    annotations: Vec<Annotation>,
    categories: Vec<COCOCategory>,
}

/// The abstract content of a [`COCODetection`].
pub struct COCODetectionView {
    pub images: Seq<COCOImage>,
    pub annotations: Seq<Annotation>,
    pub categories: Seq<COCOCategory>,
}

/// One predicted detection.
pub struct COCOPrediction {
    pub image_id: u32,
    pub category_id: u32,
    /// Bit patterns of the `f32` box `[x, y, width, height]`.
    pub bbox: [u32; 4],
    /// Bit pattern of the `f32` confidence score.
    pub score: u32,
    /// Bit pattern of the `f32` area.
    pub area: u32,
}

/// A set of predictions for a dataset.
pub struct COCOPredictions {
    pub predictions: Vec<COCOPrediction>,
}

impl View for COCODetection {
    type V = COCODetectionView;

    closed spec fn view(&self) -> COCODetectionView {
        COCODetectionView {
            images: self.images@,
            annotations: self.annotations@,
            categories: self.categories@,
        }
    }
}

/// The ids of a sequence of images.
pub open spec fn image_ids_of(images: Seq<COCOImage>) -> Seq<u32> {
    images.map_values(|i: COCOImage| i.id)
}

/// The ids of a sequence of annotations.
pub open spec fn annotation_ids_of(annotations: Seq<Annotation>) -> Seq<u128> {
    annotations.map_values(|a: Annotation| a.id)
}

/// The ids of a sequence of categories.
pub open spec fn category_ids_of(categories: Seq<COCOCategory>) -> Seq<u32> {
    categories.map_values(|c: COCOCategory| c.id)
}

/// Entries of a dataset that carry an identifier.
pub trait COCOEntry {
    type Id;

    spec fn entry_id(&self) -> Self::Id;

    fn get_id(&self) -> (id: Self::Id)
        ensures
            id == self.entry_id(),
    ;
}

impl COCOEntry for COCOImage {
    type Id = u32;

    open spec fn entry_id(&self) -> u32 {
        self.id
    }

    fn get_id(&self) -> (id: u32) {
        self.id
    }
}

impl COCOEntry for Annotation {
    type Id = u128;

    open spec fn entry_id(&self) -> u128 {
        self.id
    }

    fn get_id(&self) -> (id: u128) {
        self.id
    }
}

impl COCOEntry for COCOCategory {
    type Id = u32;

    open spec fn entry_id(&self) -> u32 {
        self.id
    }

    fn get_id(&self) -> (id: u32) {
        self.id
    }
}

impl<'a> COCOEntry for &'a COCOImage {
    type Id = u32;

    open spec fn entry_id(&self) -> u32 {
        self.id
    }

    fn get_id(&self) -> (id: u32) {
        self.id
    }
}

impl<'a> COCOEntry for &'a Annotation {
    type Id = u128;

    open spec fn entry_id(&self) -> u128 {
        self.id
    }

    fn get_id(&self) -> (id: u128) {
        self.id
    }
}

impl<'a> COCOEntry for &'a COCOCategory {
    type Id = u32;

    open spec fn entry_id(&self) -> u32 {
        self.id
    }

    fn get_id(&self) -> (id: u32) {
        self.id
    }
}

impl COCODetection {
    /// Builds a dataset from its three lists.
    pub fn new(
        images: Vec<COCOImage>,
        annotations: Vec<Annotation>,
        categories: Vec<COCOCategory>,
    ) -> (d: COCODetection)
        ensures
            d@.images == images@,
            d@.annotations == annotations@,
            d@.categories == categories@,
    {
        COCODetection { images, annotations, categories }
    }

    /// The images, in order.
    pub fn iter_images(&self) -> (it: std::slice::Iter<'_, COCOImage>)
        ensures
            it.remaining().unref() == self@.images,
    {
        self.images.iter()
    }

    /// The annotations, in order.
    pub fn iter_annotations(&self) -> (it: std::slice::Iter<'_, Annotation>)
        ensures
            it.remaining().unref() == self@.annotations,
    {
        self.annotations.iter()
    }

    /// The categories, in order.
    pub fn iter_categories(&self) -> (it: std::slice::Iter<'_, COCOCategory>)
        ensures
            it.remaining().unref() == self@.categories,
    {
        self.categories.iter()
    }

    /// The lists of a dataset have lengths that fit in a `usize`.
    pub proof fn lemma_lengths_fit(&self)
        ensures
            self@.images.len() <= usize::MAX,
            self@.annotations.len() <= usize::MAX,
            self@.categories.len() <= usize::MAX,
    {
        assert(self.images@.len() == self.images.len());
        assert(self.annotations@.len() == self.annotations.len());
        assert(self.categories@.len() == self.categories.len());
    }

    /// The images, in order.
    pub fn images(&self) -> (r: &[COCOImage])
        ensures
            r@ == self@.images,
    {
        self.images.as_slice()
    }

    /// The annotations, in order.
    pub fn annotations(&self) -> (r: &[Annotation])
        ensures
            r@ == self@.annotations,
    {
        self.annotations.as_slice()
    }

    /// The categories, in order.
    pub fn categories(&self) -> (r: &[COCOCategory])
        ensures
            r@ == self@.categories,
    {
        self.categories.as_slice()
    }

    /// The annotation at position `idx`, if there is one.
    pub fn get_annotation_at_index(&self, idx: usize) -> (r: Option<&Annotation>)
        ensures
            deref_opt_ok(r, self@.annotations, idx as int),
    {
        if idx < self.annotations.len() {
            Some(&self.annotations[idx])
        } else {
            None
        }
    }

    /// The category at position `idx`, if there is one.
    pub fn get_category_at_index(&self, idx: usize) -> (r: Option<&COCOCategory>)
        ensures
            deref_opt_ok(r, self@.categories, idx as int),
    {
        if idx < self.categories.len() {
            Some(&self.categories[idx])
        } else {
            None
        }
    }

    /// The image at position `idx`, if there is one.
    pub fn get_image_at_index(&self, idx: usize) -> (r: Option<&COCOImage>)
        ensures
            deref_opt_ok(r, self@.images, idx as int),
    {
        if idx < self.images.len() {
            Some(&self.images[idx])
        } else {
            None
        }
    }
}

/// Sorts images by id.
///
/// Calls `slice::sort_unstable_by_key` from std with the image id as key;
/// its documentation says that it sorts the slice by the key in ascending
/// order without preserving the order of equal keys. The contract claims
/// that the result is a permutation of the input sorted by id.
#[verifier::external_body]
fn sort_images_by_id(images: &mut Vec<COCOImage>)
    ensures
        final(images)@.to_multiset() == old(images)@.to_multiset(),
        forall|i: int, j: int|
            0 <= i <= j < final(images)@.len() ==> final(images)@[i].id <= final(images)@[j].id,
{
    images.sort_unstable_by_key(|coco_image| coco_image.id);
}

/// Sorts annotations by id.
///
/// Calls `slice::sort_unstable_by_key` from std with the annotation id as
/// key; the contract claims that the result is a permutation of the input
/// sorted by id.
#[verifier::external_body]
fn sort_annotations_by_id(annotations: &mut Vec<Annotation>)
    ensures
        final(annotations)@.to_multiset() == old(annotations)@.to_multiset(),
        forall|i: int, j: int|
            0 <= i <= j < final(annotations)@.len() ==> final(annotations)@[i].id <= final(annotations)@[j].id,
{
    annotations.sort_unstable_by_key(|coco_annotation| coco_annotation.id);
}

/// Sorts categories by id.
///
/// Calls `slice::sort_unstable_by_key` from std with the category id as
/// key; the contract claims that the result is a permutation of the input
/// sorted by id.
#[verifier::external_body]
fn sort_categories_by_id(categories: &mut Vec<COCOCategory>)
    ensures
        final(categories)@.to_multiset() == old(categories)@.to_multiset(),
        forall|i: int, j: int|
            0 <= i <= j < final(categories)@.len() ==> final(categories)@[i].id <= final(categories)@[j].id,
{
    categories.sort_unstable_by_key(|coco_category| coco_category.id);
}

impl COCODetection {
    /// Sorts the images by id; annotations and categories are unchanged.
    pub fn sort_images_inplace(&mut self)
        ensures
            final(self)@.images.to_multiset() == old(self)@.images.to_multiset(),
            forall|i: int, j: int|
                0 <= i <= j < final(self)@.images.len() ==> final(self)@.images[i].id <= final(self)@.images[j].id,
            final(self)@.annotations == old(self)@.annotations,
            final(self)@.categories == old(self)@.categories,
    {
        sort_images_by_id(&mut self.images);
    }

    /// Sorts the annotations by id; images and categories are unchanged.
    pub fn sort_annots_inplace(&mut self)
        ensures
            final(self)@.annotations.to_multiset() == old(self)@.annotations.to_multiset(),
            forall|i: int, j: int|
                0 <= i <= j < final(self)@.annotations.len() ==> final(self)@.annotations[i].id
                    <= final(self)@.annotations[j].id,
            final(self)@.images == old(self)@.images,
            final(self)@.categories == old(self)@.categories,
    {
        sort_annotations_by_id(&mut self.annotations);
    }

    /// Sorts the categories by id; images and annotations are unchanged.
    pub fn sort_categories_inplace(&mut self)
        ensures
            final(self)@.categories.to_multiset() == old(self)@.categories.to_multiset(),
            forall|i: int, j: int|
                0 <= i <= j < final(self)@.categories.len() ==> final(self)@.categories[i].id
                    <= final(self)@.categories[j].id,
            final(self)@.images == old(self)@.images,
            final(self)@.annotations == old(self)@.annotations,
    {
        sort_categories_by_id(&mut self.categories);
    }

    /// The ids of all images, in order.
    pub fn get_all_image_ids(&self) -> (r: Vec<u32>)
        ensures
            r@ == image_ids_of(self@.images),
    {
        let mut r: Vec<u32> = Vec::with_capacity(self.images.len());
        let mut i: usize = 0;
        while i < self.images.len()
            invariant
                i <= self.images@.len(),
                r@ == image_ids_of(self.images@).take(i as int),
            decreases self.images@.len() - i,
        {
            r.push(self.images[i].id);
            i = i + 1;
            proof {
                assert(r@ =~= image_ids_of(self.images@).take(i as int));
            }
        }
        proof {
            assert(image_ids_of(self.images@).take(i as int) =~= image_ids_of(self.images@));
        }
        r
    }

    /// The ids of all annotations, in order.
    pub fn get_all_annotation_ids(&self) -> (r: Vec<u128>)
        ensures
            r@ == annotation_ids_of(self@.annotations),
    {
        let mut r: Vec<u128> = Vec::with_capacity(self.annotations.len());
        let mut i: usize = 0;
        while i < self.annotations.len()
            invariant
                i <= self.annotations@.len(),
                r@ == annotation_ids_of(self.annotations@).take(i as int),
            decreases self.annotations@.len() - i,
        {
            r.push(self.annotations[i].id);
            i = i + 1;
            proof {
                assert(r@ =~= annotation_ids_of(self.annotations@).take(i as int));
            }
        }
        proof {
            assert(annotation_ids_of(self.annotations@).take(i as int) =~= annotation_ids_of(
                self.annotations@,
            ));
        }
        r
    }

    /// The annotations whose image is one of `image_ids`, in order.
    pub fn get_annotations_from_image_ids(&self, image_ids: &[u32]) -> (r: Vec<&Annotation>)
        ensures
            derefs(r@) == self@.annotations.filter(
                |a: Annotation| image_ids@.contains(a.image_id),
            ),
    {
        let ghost anns = self.annotations@;
        let mut r: Vec<&Annotation> = Vec::new();
        let mut i: usize = 0;
        while i < self.annotations.len()
            invariant
                i <= anns.len(),
                anns == self.annotations@,
                derefs(r@) == anns.take(i as int).filter(
                    |a: Annotation| image_ids@.contains(a.image_id),
                ),
            decreases anns.len() - i,
        {
            let coco_annotation = &self.annotations[i];
            let ghost before = r@;
            if contains_id(image_ids, coco_annotation.image_id) {
                r.push(coco_annotation);
                proof {
                    assert(derefs(r@) =~= derefs(before).push(*coco_annotation));
                }
            }
            proof {
                assert(anns.take(i + 1) =~= anns.take(i as int).push(*coco_annotation));
                anns.take(i as int).lemma_filter_push(
                    *coco_annotation,
                    |a: Annotation| image_ids@.contains(a.image_id),
                );
            }
            i = i + 1;
        }
        proof {
            assert(anns.take(anns.len() as int) =~= anns);
        }
        r
    }
}

/// `r` is the element of `s` at position `i` when there is one, and `None` otherwise.
pub open spec fn deref_opt_ok<A>(r: Option<&A>, s: Seq<A>, i: int) -> bool {
    if 0 <= i < s.len() {
        r matches Some(x) && *x == s[i]
    } else {
        r is None
    }
}

} // verus!
