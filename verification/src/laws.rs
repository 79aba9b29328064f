//! Properties of the dataset index and of its queries.

use vstd::prelude::*;

use crate::coco::{
    annotation_by_id, annotation_ids_by_category, annotation_ids_by_image, annotations_listed,
    annotations_of_categories,
    annotations_from_filters, annotations_named, annotations_of_images, category_by_id, image_by_id,
    image_candidates, image_ids_by_category, image_ids_of_annotations, images_from_filters,
    images_named, images_of_categories, in_categories,
};
use crate::coco_eval::keyed_positions;
use crate::coco_types::{
    Annotation, COCODetectionView, COCOImage, annotation_ids_of, category_ids_of, image_ids_of,
};
use crate::seq_spec::{
    grouped, last_positions, lemma_grouped, lemma_last_positions, somes, sorted_distinct,
    strictly_increasing, values_of,
};

verus! {

/// Every image that a category lists has annotations listed for it: the
/// category-to-images table only names images of the image-to-annotations
/// table.
pub proof fn law_category_images_have_annotations(d: COCODetectionView, c: u32, img: u32)
    requires
        image_ids_by_category(d).contains_key(c),
        image_ids_by_category(d)[c].contains(img),
    ensures
        annotation_ids_by_image(d).contains_key(img),
{
    let cat_pairs = d.annotations.map_values(|a: Annotation| (a.category_id, a.image_id));
    let img_pairs = d.annotations.map_values(|a: Annotation| (a.image_id, a.id));
    lemma_grouped(cat_pairs);
    lemma_grouped(img_pairs);
    let i = lemma_value_has_pair(cat_pairs, c, img);
    assert(img_pairs[i].0 == img);
}

/// A lookup by id finds an image carrying that id (the last one, where
/// several do), and finds none exactly when no image carries it.
pub proof fn law_image_lookup_matches_id(d: COCODetectionView, id: u32)
    requires
        d.images.len() <= usize::MAX,
    ensures
        image_by_id(d, id) matches Some(img) ==> img.id == id && d.images.contains(img),
        image_by_id(d, id) is None <==> !image_ids_of(d.images).contains(id),
        image_by_id(d, id) matches Some(img) ==> exists|p: int|
            0 <= p < d.images.len() && d.images[p] == img && forall|j: int|
                p < j < d.images.len() ==> (#[trigger] d.images[j]).id != id,
{
    let ids = image_ids_of(d.images);
    lemma_last_positions(ids);
    if last_positions(ids).contains_key(id) {
        let p = last_positions(ids)[id] as int;
        assert(ids[p] == id);
        assert(d.images.contains(d.images[p]));
        assert forall|j: int| p < j < d.images.len() implies (#[trigger] d.images[j]).id != id by {
            assert(ids[j] == d.images[j].id);
        }
    }
}

/// A lookup by id finds an annotation carrying that id (the last one, where
/// several do), and finds none exactly when no annotation carries it.
pub proof fn law_annotation_lookup_matches_id(d: COCODetectionView, id: u128)
    requires
        d.annotations.len() <= usize::MAX,
    ensures
        annotation_by_id(d, id) matches Some(a) ==> a.id == id && d.annotations.contains(a),
        annotation_by_id(d, id) is None <==> !annotation_ids_of(d.annotations).contains(id),
        annotation_by_id(d, id) matches Some(a) ==> exists|p: int|
            0 <= p < d.annotations.len() && d.annotations[p] == a && forall|j: int|
                p < j < d.annotations.len() ==> (#[trigger] d.annotations[j]).id != id,
{
    let ids = annotation_ids_of(d.annotations);
    lemma_last_positions(ids);
    if last_positions(ids).contains_key(id) {
        let p = last_positions(ids)[id] as int;
        assert(ids[p] == id);
        assert(d.annotations.contains(d.annotations[p]));
        assert forall|j: int| p < j < d.annotations.len() implies (#[trigger] d.annotations[j]).id != id by {
            assert(ids[j] == d.annotations[j].id);
        }
    }
}

/// A lookup by id finds a category carrying that id (the last one, where
/// several do), and finds none exactly when no category carries it.
pub proof fn law_category_lookup_matches_id(d: COCODetectionView, id: u32)
    requires
        d.categories.len() <= usize::MAX,
    ensures
        category_by_id(d, id) matches Some(c) ==> c.id == id && d.categories.contains(c),
        category_by_id(d, id) is None <==> !category_ids_of(d.categories).contains(id),
        category_by_id(d, id) matches Some(c) ==> exists|p: int|
            0 <= p < d.categories.len() && d.categories[p] == c && forall|j: int|
                p < j < d.categories.len() ==> (#[trigger] d.categories[j]).id != id,
{
    let ids = category_ids_of(d.categories);
    lemma_last_positions(ids);
    if last_positions(ids).contains_key(id) {
        let p = last_positions(ids)[id] as int;
        assert(ids[p] == id);
        assert(d.categories.contains(d.categories[p]));
        assert forall|j: int| p < j < d.categories.len() implies (#[trigger] d.categories[j]).id != id by {
            assert(ids[j] == d.categories[j].id);
        }
    }
}

/// A value listed under key `k` comes from a pair carrying `k`; returns its position.
proof fn lemma_value_has_pair<K, V>(pairs: Seq<(K, V)>, k: K, v: V) -> (i: int)
    requires
        values_of(pairs, k).contains(v),
    ensures
        0 <= i < pairs.len(),
        pairs[i] == (k, v),
    decreases pairs.len(),
{
    let pre = pairs.drop_last();
    let x = pairs.last();
    if x.0 == k && x.1 == v {
        pairs.len() - 1
    } else {
        if x.0 == k {
            let j = choose|j: int| 0 <= j < values_of(pairs, k).len() && values_of(pairs, k)[j] == v;
            assert(values_of(pairs, k) == values_of(pre, k).push(x.1));
            assert(values_of(pre, k)[j] == v);
        }
        let i = lemma_value_has_pair(pre, k, v);
        assert(pairs[i] == pre[i]);
        i
    }
}

/// The payloads of a sequence of `Some`s are the wrapped values.
proof fn lemma_somes_all_some<A>(s: Seq<Option<A>>, t: Seq<A>)
    requires
        s.len() == t.len(),
        forall|i: int| 0 <= i < s.len() ==> s[i] == Some(#[trigger] t[i]),
    ensures
        somes(s) == t,
    decreases s.len(),
{
    if s.len() > 0 {
        lemma_somes_all_some(s.drop_last(), t.drop_last());
        assert(s.last() == Some(t.last()));
        assert(t.drop_last().push(t.last()) =~= t);
    }
}

/// When annotation ids are distinct, looking up the id of an annotation of
/// the dataset finds that annotation.
proof fn lemma_unique_annotation_lookup(d: COCODetectionView, i: int)
    requires
        d.annotations.len() <= usize::MAX,
        annotation_ids_of(d.annotations).no_duplicates(),
        0 <= i < d.annotations.len(),
    ensures
        annotation_by_id(d, d.annotations[i].id) == Some(d.annotations[i]),
{
    let ids = annotation_ids_of(d.annotations);
    lemma_last_positions(ids);
    assert(ids[i] == d.annotations[i].id);
    assert(ids.contains(d.annotations[i].id));
    let p = last_positions(ids)[d.annotations[i].id] as int;
    assert(ids[p] == ids[i]);
}

/// When annotation ids are distinct, the annotations named by the ids of
/// some annotations of the dataset are those annotations.
proof fn lemma_named_are_themselves(d: COCODetectionView, f: Seq<Annotation>)
    requires
        d.annotations.len() <= usize::MAX,
        annotation_ids_of(d.annotations).no_duplicates(),
        forall|j: int| 0 <= j < f.len() ==> d.annotations.contains(#[trigger] f[j]),
    ensures
        annotations_named(d, annotation_ids_of(f)) == f,
{
    let s = annotation_ids_of(f).map_values(|a: u128| annotation_by_id(d, a));
    assert forall|j: int| 0 <= j < s.len() implies s[j] == Some(#[trigger] f[j]) by {
        assert(d.annotations.contains(f[j]));
        let i = choose|i: int| 0 <= i < d.annotations.len() && d.annotations[i] == f[j];
        lemma_unique_annotation_lookup(d, i);
    }
    lemma_somes_all_some(s, f);
}

/// The annotations of a list of pairs built from annotations: the values
/// under a key are the ids of the annotations that carry that key.
proof fn lemma_listed_ids(anns: Seq<Annotation>, key: spec_fn(Annotation) -> u32, k: u32)
    ensures
        values_of(anns.map_values(|a: Annotation| (key(a), a.id)), k) == annotation_ids_of(
            anns.filter(|a: Annotation| key(a) == k),
        ),
    decreases anns.len(),
{
    let pred = |a: Annotation| key(a) == k;
    if anns.len() == 0 {
        assert(anns.filter(pred) =~= Seq::<Annotation>::empty()) by {
            reveal(Seq::filter);
        }
    } else {
        let pre = anns.drop_last();
        let x = anns.last();
        lemma_listed_ids(pre, key, k);
        assert(anns == pre.push(x));
        pre.lemma_filter_push(x, pred);
        assert(anns.map_values(|a: Annotation| (key(a), a.id)).drop_last() =~= pre.map_values(
            |a: Annotation| (key(a), a.id),
        ));
        assert(annotation_ids_of(pre.filter(pred).push(x)) =~= annotation_ids_of(
            pre.filter(pred),
        ).push(x.id));
    }
}

/// When annotation ids are distinct, the annotations listed under an image
/// are exactly the annotations of that image, in dataset order.
pub proof fn law_image_lists_its_annotations(d: COCODetectionView, img: u32)
    requires
        d.annotations.len() <= usize::MAX,
        annotation_ids_of(d.annotations).no_duplicates(),
    ensures
        annotations_listed(d, annotation_ids_by_image(d), img) == d.annotations.filter(
            |a: Annotation| a.image_id == img,
        ),
{
    let key = |a: Annotation| a.image_id;
    let pairs = d.annotations.map_values(|a: Annotation| (a.image_id, a.id));
    assert(pairs =~= d.annotations.map_values(|a: Annotation| (key(a), a.id)));
    lemma_grouped(pairs);
    lemma_listed_ids(d.annotations, key, img);
    let f = d.annotations.filter(|a: Annotation| key(a) == img);
    assert(f =~= d.annotations.filter(|a: Annotation| a.image_id == img)) by {
        assert((|a: Annotation| key(a) == img) =~= (|a: Annotation| a.image_id == img));
    }
    assert forall|j: int| 0 <= j < f.len() implies d.annotations.contains(#[trigger] f[j]) by {
        assert(f.contains(f[j]));
        d.annotations.lemma_filter_contains_rev(|a: Annotation| key(a) == img, f[j]);
    }
    lemma_named_are_themselves(d, f);
    if !annotation_ids_by_image(d).contains_key(img) {
        assert forall|i: int| 0 <= i < d.annotations.len() implies !(|a: Annotation| key(a)
            == img)(#[trigger] d.annotations[i]) by {
            assert(pairs[i].0 == d.annotations[i].image_id);
        }
        crate::seq_spec::lemma_filter_none(d.annotations, |a: Annotation| key(a) == img);
        assert(f =~= Seq::<Annotation>::empty());
    }
}

/// When annotation ids are distinct, the annotations listed under a category
/// are exactly the annotations of that category, in dataset order.
pub proof fn law_category_lists_its_annotations(d: COCODetectionView, cat: u32)
    requires
        d.annotations.len() <= usize::MAX,
        annotation_ids_of(d.annotations).no_duplicates(),
    ensures
        annotations_listed(d, annotation_ids_by_category(d), cat) == d.annotations.filter(
            |a: Annotation| a.category_id == cat,
        ),
{
    let key = |a: Annotation| a.category_id;
    let pairs = d.annotations.map_values(|a: Annotation| (a.category_id, a.id));
    assert(pairs =~= d.annotations.map_values(|a: Annotation| (key(a), a.id)));
    lemma_grouped(pairs);
    lemma_listed_ids(d.annotations, key, cat);
    let f = d.annotations.filter(|a: Annotation| key(a) == cat);
    assert(f =~= d.annotations.filter(|a: Annotation| a.category_id == cat)) by {
        assert((|a: Annotation| key(a) == cat) =~= (|a: Annotation| a.category_id == cat));
    }
    assert forall|j: int| 0 <= j < f.len() implies d.annotations.contains(#[trigger] f[j]) by {
        assert(f.contains(f[j]));
        d.annotations.lemma_filter_contains_rev(|a: Annotation| key(a) == cat, f[j]);
    }
    lemma_named_are_themselves(d, f);
    if !annotation_ids_by_category(d).contains_key(cat) {
        assert forall|i: int| 0 <= i < d.annotations.len() implies !(|a: Annotation| key(a)
            == cat)(#[trigger] d.annotations[i]) by {
            assert(pairs[i].0 == d.annotations[i].category_id);
        }
        crate::seq_spec::lemma_filter_none(d.annotations, |a: Annotation| key(a) == cat);
        assert(f =~= Seq::<Annotation>::empty());
    }
}

/// The images that a filter query finds come in strictly increasing order of
/// id, so none is repeated.
pub proof fn law_images_from_filters_sorted(
    d: COCODetectionView,
    image_ids: Option<Seq<u32>>,
    category_ids: Option<Seq<u32>>,
)
    requires
        d.images.len() <= usize::MAX,
    ensures
        strictly_increasing(image_ids_of(images_from_filters(d, image_ids, category_ids))),
{
    let u = sorted_distinct(crate::coco::image_candidates(d, image_ids, category_ids));
    crate::seq_spec::lemma_sorted_distinct_props(
        crate::coco::image_candidates(d, image_ids, category_ids),
    );
    lemma_somes_of_lookups_increasing(d, u);
}

/// Looking up a strictly increasing sequence of ids yields images in
/// strictly increasing order of id.
proof fn lemma_somes_of_lookups_increasing(d: COCODetectionView, u: Seq<u32>)
    requires
        d.images.len() <= usize::MAX,
        strictly_increasing(u),
    ensures
        strictly_increasing(image_ids_of(images_named(d, u))),
        forall|j: int|
            0 <= j < images_named(d, u).len() ==> u.contains((#[trigger] images_named(d, u)[j]).id),
    decreases u.len(),
{
    if u.len() > 0 {
        let pre = u.drop_last();
        lemma_somes_of_lookups_increasing(d, pre);
        let s = u.map_values(|id: u32| image_by_id(d, id));
        assert(s.drop_last() =~= pre.map_values(|id: u32| image_by_id(d, id)));
        let rest = images_named(d, pre);
        law_image_lookup_matches_id(d, u.last());
        assert forall|j: int| 0 <= j < rest.len() implies (#[trigger] rest[j]).id < u.last() by {
            assert(pre.contains(rest[j].id));
            let k = choose|k: int| 0 <= k < pre.len() && pre[k] == rest[j].id;
            assert(u[k] == pre[k]);
        }
        assert forall|j: int| 0 <= j < rest.len() implies u.contains((#[trigger] rest[j]).id) by {
            assert(pre.contains(rest[j].id));
            let k = choose|k: int| 0 <= k < pre.len() && pre[k] == rest[j].id;
            assert(u[k] == pre[k]);
        }
        match s.last() {
            Some(img) => {
                assert(images_named(d, u) == rest.push(img));
                assert(img.id == u.last());
                assert(u.contains(u[u.len() - 1]));
                assert(image_ids_of(rest.push(img)) =~= image_ids_of(rest).push(img.id));
            },
            None => {
                assert(images_named(d, u) == rest);
            },
        }
    }
}

/// The annotations of one image that belong to one of `cats`, in dataset order.
pub open spec fn annotations_of_image_in(
    anns: Seq<Annotation>,
    img: u32,
    cats: Seq<u32>,
) -> Seq<Annotation>
    decreases anns.len(),
{
    if anns.len() == 0 {
        Seq::empty()
    } else {
        let rest = annotations_of_image_in(anns.drop_last(), img, cats);
        let a = anns.last();
        if a.image_id == img && cats.contains(a.category_id) {
            rest.push(a)
        } else {
            rest
        }
    }
}

/// The annotations of one image in some categories are those that pass both
/// tests.
proof fn lemma_image_in_is_filter(anns: Seq<Annotation>, img: u32, cats: Seq<u32>)
    ensures
        annotations_of_image_in(anns, img, cats) == anns.filter(
            |a: Annotation| a.image_id == img && cats.contains(a.category_id),
        ),
    decreases anns.len(),
{
    let p = |a: Annotation| a.image_id == img && cats.contains(a.category_id);
    if anns.len() == 0 {
        assert(anns.filter(p) =~= Seq::<Annotation>::empty()) by {
            reveal(Seq::filter);
        }
    } else {
        let pre = anns.drop_last();
        let x = anns.last();
        lemma_image_in_is_filter(pre, img, cats);
        assert(anns == pre.push(x));
        pre.lemma_filter_push(x, p);
    }
}

/// Keeping the annotations of some categories among those of an image keeps
/// the annotations of that image in those categories.
proof fn lemma_image_then_categories(anns: Seq<Annotation>, img: u32, cats: Seq<u32>)
    ensures
        in_categories(anns.filter(|a: Annotation| a.image_id == img), cats)
            == annotations_of_image_in(anns, img, cats),
    decreases anns.len(),
{
    let by_image = |a: Annotation| a.image_id == img;
    let by_cat = |a: Annotation| cats.contains(a.category_id);
    if anns.len() == 0 {
        assert(anns.filter(by_image) =~= Seq::<Annotation>::empty()) by {
            reveal(Seq::filter);
        }
        assert(Seq::<Annotation>::empty().filter(by_cat) =~= Seq::<Annotation>::empty()) by {
            reveal(Seq::filter);
        }
    } else {
        let pre = anns.drop_last();
        let x = anns.last();
        lemma_image_then_categories(pre, img, cats);
        assert(anns == pre.push(x));
        pre.lemma_filter_push(x, by_image);
        pre.filter(by_image).lemma_filter_push(x, by_cat);
    }
}

/// When annotation ids are distinct, the annotations found by both image ids
/// and category ids are, for each image id in turn, the annotations of that
/// image that belong to one of the categories.
pub proof fn law_filters_select_image_and_category(
    d: COCODetectionView,
    imgs: Seq<u32>,
    cats: Seq<u32>,
)
    requires
        d.annotations.len() <= usize::MAX,
        annotation_ids_of(d.annotations).no_duplicates(),
    ensures
        annotations_from_filters(d, Some(imgs), Some(cats)) == imgs.map_values(
            |i: u32| annotations_of_image_in(d.annotations, i, cats),
        ).flatten(),
        annotations_from_filters(d, Some(imgs), Some(cats)) == imgs.map_values(
            |i: u32|
                d.annotations.filter(
                    |a: Annotation| a.image_id == i && cats.contains(a.category_id),
                ),
        ).flatten(),
    decreases imgs.len(),
{
    let selected = |x: u32| annotations_of_image_in(d.annotations, x, cats);
    let both = |x: u32|
        d.annotations.filter(|a: Annotation| a.image_id == x && cats.contains(a.category_id));
    assert forall|k: int| 0 <= k < imgs.len() implies imgs.map_values(selected)[k]
        == imgs.map_values(both)[k] by {
        lemma_image_in_is_filter(d.annotations, imgs[k], cats);
    }
    assert(imgs.map_values(selected) =~= imgs.map_values(both));
    if imgs.len() > 0 {
        let pre = imgs.drop_last();
        let i = imgs.last();
        law_filters_select_image_and_category(d, pre, cats);
        let listed = |x: u32| annotations_listed(d, annotation_ids_by_image(d), x);
        let selected = |x: u32| annotations_of_image_in(d.annotations, x, cats);
        assert(imgs.map_values(listed) =~= pre.map_values(listed).push(listed(i)));
        pre.map_values(listed).lemma_flatten_push(listed(i));
        assert(imgs.map_values(selected) =~= pre.map_values(selected).push(selected(i)));
        pre.map_values(selected).lemma_flatten_push(selected(i));
        assert(annotations_of_images(d, imgs) == annotations_of_images(d, pre) + listed(i));
        law_image_lists_its_annotations(d, i);
        lemma_image_then_categories(d.annotations, i, cats);
        Seq::filter_distributes_over_add(
            annotations_of_images(d, pre),
            listed(i),
            |a: Annotation| cats.contains(a.category_id),
        );
    } else {
        assert(imgs.map_values(|i: u32| annotations_of_image_in(d.annotations, i, cats))
            =~= Seq::<Seq<Annotation>>::empty());
        assert(annotations_of_images(d, imgs) =~= Seq::<Annotation>::empty());
        assert(in_categories(Seq::<Annotation>::empty(), cats) =~= Seq::<Annotation>::empty()) by {
            reveal(Seq::filter);
        }
    }
}

/// Two optional id filters name the same ids: both are absent, or both are
/// given with the same set of ids (in any order, with any repeats).
pub open spec fn same_id_filter(a: Option<Seq<u32>>, b: Option<Seq<u32>>) -> bool {
    match (a, b) {
        (None, None) => true,
        (Some(x), Some(y)) => x.to_set() == y.to_set(),
        _ => false,
    }
}

/// An element lies in a flattened sequence exactly when it lies in one of
/// the parts.
proof fn lemma_flatten_contains<A>(ss: Seq<Seq<A>>, y: A)
    ensures
        ss.flatten().contains(y) <==> exists|i: int| 0 <= i < ss.len() && #[trigger] ss[i].contains(y),
    decreases ss.len(),
{
    if ss.len() > 0 {
        let rest = ss.drop_first();
        lemma_flatten_contains(rest, y);
        let f = ss.flatten();
        assert(f == ss[0] + rest.flatten());
        if f.contains(y) {
            let k = choose|k: int| 0 <= k < f.len() && f[k] == y;
            if k < ss[0].len() {
                assert(ss[0][k] == y);
                assert(ss[0].contains(y));
            } else {
                assert(rest.flatten()[k - ss[0].len()] == y);
                assert(rest.flatten().contains(y));
                let i = choose|i: int| 0 <= i < rest.len() && #[trigger] rest[i].contains(y);
                assert(ss[i + 1] == rest[i]);
            }
        }
        if exists|i: int| 0 <= i < ss.len() && #[trigger] ss[i].contains(y) {
            let i = choose|i: int| 0 <= i < ss.len() && #[trigger] ss[i].contains(y);
            if i == 0 {
                let k = choose|k: int| 0 <= k < ss[0].len() && ss[0][k] == y;
                assert(f[k] == y);
            } else {
                assert(rest[i - 1] == ss[i]);
                assert(rest.flatten().contains(y));
                let k = choose|k: int| 0 <= k < rest.flatten().len() && rest.flatten()[k] == y;
                assert(f[k + ss[0].len()] == y);
            }
        }
    }
}

/// Flattening the images of two sequences with the same elements gives
/// sequences with the same elements.
proof fn lemma_flatten_map_same_set<A, B>(xs: Seq<A>, ys: Seq<A>, f: spec_fn(A) -> Seq<B>, y: B)
    requires
        xs.to_set() == ys.to_set(),
    ensures
        xs.map_values(f).flatten().contains(y) == ys.map_values(f).flatten().contains(y),
{
    lemma_flatten_contains(xs.map_values(f), y);
    lemma_flatten_contains(ys.map_values(f), y);
    if xs.map_values(f).flatten().contains(y) {
        let i = choose|i: int| 0 <= i < xs.len() && #[trigger] xs.map_values(f)[i].contains(y);
        assert(xs.to_set().contains(xs[i]));
        let j = choose|j: int| 0 <= j < ys.len() && ys[j] == xs[i];
        assert(ys.map_values(f)[j].contains(y));
    }
    if ys.map_values(f).flatten().contains(y) {
        let i = choose|i: int| 0 <= i < ys.len() && #[trigger] ys.map_values(f)[i].contains(y);
        assert(ys.to_set().contains(ys[i]));
        let j = choose|j: int| 0 <= j < xs.len() && xs[j] == ys[i];
        assert(xs.map_values(f)[j].contains(y));
    }
}

/// The annotations found for two image filters with the same ids are the
/// same annotations (up to order and repeats).
proof fn lemma_annotations_of_images_same_set(
    d: COCODetectionView,
    imgs1: Seq<u32>,
    imgs2: Seq<u32>,
    a: Annotation,
)
    requires
        imgs1.to_set() == imgs2.to_set(),
    ensures
        annotations_of_images(d, imgs1).contains(a) == annotations_of_images(d, imgs2).contains(a),
{
    let f = |img: u32| annotations_listed(d, annotation_ids_by_image(d), img);
    assert(annotations_of_images(d, imgs1) == imgs1.map_values(f).flatten());
    assert(annotations_of_images(d, imgs2) == imgs2.map_values(f).flatten());
    lemma_flatten_map_same_set(imgs1, imgs2, f, a);
}

/// An element lies in a filtered sequence exactly when it lies in the
/// sequence and passes the filter.
proof fn lemma_filter_contains_iff<A>(s: Seq<A>, p: spec_fn(A) -> bool, x: A)
    ensures
        s.filter(p).contains(x) <==> s.contains(x) && p(x),
{
    if s.filter(p).contains(x) {
        s.lemma_filter_contains_rev(p, x);
        let k = choose|k: int| 0 <= k < s.filter(p).len() && s.filter(p)[k] == x;
        s.lemma_filter_pred(p, k);
    }
    if s.contains(x) && p(x) {
        let k = choose|k: int| 0 <= k < s.len() && s[k] == x;
        s.lemma_filter_contains(p, k);
    }
}

/// The image ids of a sequence of annotations are those of its elements.
proof fn lemma_image_ids_contains(anns: Seq<Annotation>, z: u32)
    ensures
        image_ids_of_annotations(anns).contains(z) <==> exists|k: int|
            0 <= k < anns.len() && (#[trigger] anns[k]).image_id == z,
{
    if image_ids_of_annotations(anns).contains(z) {
        let k = choose|k: int|
            0 <= k < image_ids_of_annotations(anns).len() && image_ids_of_annotations(anns)[k] == z;
        assert(anns[k].image_id == z);
    }
    if exists|k: int| 0 <= k < anns.len() && (#[trigger] anns[k]).image_id == z {
        let k = choose|k: int| 0 <= k < anns.len() && (#[trigger] anns[k]).image_id == z;
        assert(image_ids_of_annotations(anns)[k] == z);
    }
}

/// Two sequences with the same elements pass the same annotations through
/// `in_categories`, and keep the same image ids.
proof fn lemma_candidates_same_elements(
    d: COCODetectionView,
    image_ids: Option<Seq<u32>>,
    category_ids: Option<Seq<u32>>,
    image_ids2: Option<Seq<u32>>,
    category_ids2: Option<Seq<u32>>,
    z: u32,
)
    requires
        same_id_filter(image_ids, image_ids2),
        same_id_filter(category_ids, category_ids2),
    ensures
        image_candidates(d, image_ids, category_ids).contains(z) == image_candidates(
            d,
            image_ids2,
            category_ids2,
        ).contains(z),
{
    match (image_ids, category_ids) {
        (None, None) => {},
        (None, Some(cats)) => {
            let cats2 = category_ids2.unwrap();
            let f = |c: u32|
                if image_ids_by_category(d).contains_key(c) {
                    image_ids_by_category(d)[c]
                } else {
                    Seq::empty()
                };
            assert(images_of_categories(d, cats) == cats.map_values(f).flatten());
            assert(images_of_categories(d, cats2) == cats2.map_values(f).flatten());
            lemma_flatten_map_same_set(cats, cats2, f, z);
        },
        (Some(imgs), None) => {
            let imgs2 = image_ids2.unwrap();
            let s1 = annotations_of_images(d, imgs);
            let s2 = annotations_of_images(d, imgs2);
            lemma_image_ids_contains(s1, z);
            lemma_image_ids_contains(s2, z);
            if image_ids_of_annotations(s1).contains(z) {
                let k = choose|k: int| 0 <= k < s1.len() && (#[trigger] s1[k]).image_id == z;
                assert(s1.contains(s1[k]));
                lemma_annotations_of_images_same_set(d, imgs, imgs2, s1[k]);
                let j = choose|j: int| 0 <= j < s2.len() && s2[j] == s1[k];
                assert(s2[j].image_id == z);
            }
            if image_ids_of_annotations(s2).contains(z) {
                let k = choose|k: int| 0 <= k < s2.len() && (#[trigger] s2[k]).image_id == z;
                assert(s2.contains(s2[k]));
                lemma_annotations_of_images_same_set(d, imgs, imgs2, s2[k]);
                let j = choose|j: int| 0 <= j < s1.len() && s1[j] == s2[k];
                assert(s1[j].image_id == z);
            }
        },
        (Some(imgs), Some(cats)) => {
            let imgs2 = image_ids2.unwrap();
            let cats2 = category_ids2.unwrap();
            let s1 = in_categories(annotations_of_images(d, imgs), cats);
            let s2 = in_categories(annotations_of_images(d, imgs2), cats2);
            let p1 = |a: Annotation| cats.contains(a.category_id);
            let p2 = |a: Annotation| cats2.contains(a.category_id);
            assert(s1 == annotations_of_images(d, imgs).filter(p1));
            assert(s2 == annotations_of_images(d, imgs2).filter(p2));
            lemma_image_ids_contains(s1, z);
            lemma_image_ids_contains(s2, z);
            assert forall|a: Annotation| #[trigger] s1.contains(a) == s2.contains(a) by {
                lemma_filter_contains_iff(annotations_of_images(d, imgs), p1, a);
                lemma_filter_contains_iff(annotations_of_images(d, imgs2), p2, a);
                lemma_annotations_of_images_same_set(d, imgs, imgs2, a);
                assert(cats.to_set().contains(a.category_id) == cats2.to_set().contains(
                    a.category_id,
                ));
            }
            if image_ids_of_annotations(s1).contains(z) {
                let k = choose|k: int| 0 <= k < s1.len() && (#[trigger] s1[k]).image_id == z;
                assert(s1.contains(s1[k]));
                let j = choose|j: int| 0 <= j < s2.len() && s2[j] == s1[k];
                assert(s2[j].image_id == z);
            }
            if image_ids_of_annotations(s2).contains(z) {
                let k = choose|k: int| 0 <= k < s2.len() && (#[trigger] s2[k]).image_id == z;
                assert(s2.contains(s2[k]));
                assert(s1.contains(s2[k]));
                let j = choose|j: int| 0 <= j < s1.len() && s1[j] == s2[k];
                assert(s1[j].image_id == z);
            }
        },
    }
}

/// The image filter query depends on the sets of ids it is given only: the
/// order of the ids, and repeats among them, change neither whether images
/// are found nor which images are found.
pub proof fn law_image_filters_ignore_order_and_repeats(
    d: COCODetectionView,
    image_ids: Option<Seq<u32>>,
    category_ids: Option<Seq<u32>>,
    image_ids2: Option<Seq<u32>>,
    category_ids2: Option<Seq<u32>>,
)
    requires
        same_id_filter(image_ids, image_ids2),
        same_id_filter(category_ids, category_ids2),
    ensures
        (image_candidates(d, image_ids, category_ids).len() == 0) == (image_candidates(
            d,
            image_ids2,
            category_ids2,
        ).len() == 0),
        images_from_filters(d, image_ids, category_ids) == images_from_filters(
            d,
            image_ids2,
            category_ids2,
        ),
{
    let c1 = image_candidates(d, image_ids, category_ids);
    let c2 = image_candidates(d, image_ids2, category_ids2);
    assert forall|z: u32| #[trigger] c1.contains(z) == c2.contains(z) by {
        lemma_candidates_same_elements(d, image_ids, category_ids, image_ids2, category_ids2, z);
    }
    assert(c1.to_set() =~= c2.to_set());
    if c1.len() > 0 {
        assert(c1.contains(c1[0]));
        assert(c2.contains(c1[0]));
    }
    if c2.len() > 0 {
        assert(c2.contains(c2[0]));
        assert(c1.contains(c2[0]));
    }
    assert(sorted_distinct(c1) == sorted_distinct(c2));
}

/// When annotation ids are distinct, the category query gives, for each
/// category id in turn, every annotation of that category in dataset order,
/// and nothing else.
pub proof fn law_category_query_gives_its_annotations(d: COCODetectionView, ids: Seq<u32>)
    requires
        d.annotations.len() <= usize::MAX,
        annotation_ids_of(d.annotations).no_duplicates(),
    ensures
        annotations_of_categories(d, ids) == ids.map_values(
            |c: u32| d.annotations.filter(|a: Annotation| a.category_id == c),
        ).flatten(),
{
    let f = |c: u32| annotations_listed(d, annotation_ids_by_category(d), c);
    let g = |c: u32| d.annotations.filter(|a: Annotation| a.category_id == c);
    assert(annotations_of_categories(d, ids) == ids.map_values(f).flatten());
    assert forall|i: int| 0 <= i < ids.len() implies ids.map_values(f)[i] == ids.map_values(
        g,
    )[i] by {
        law_category_lists_its_annotations(d, ids[i]);
    }
    assert(ids.map_values(f) =~= ids.map_values(g));
}

/// When annotation ids are distinct, the image query gives, for each image
/// id in turn, every annotation of that image in dataset order, and nothing
/// else.
pub proof fn law_image_query_gives_its_annotations(d: COCODetectionView, ids: Seq<u32>)
    requires
        d.annotations.len() <= usize::MAX,
        annotation_ids_of(d.annotations).no_duplicates(),
    ensures
        annotations_of_images(d, ids) == ids.map_values(
            |i: u32| d.annotations.filter(|a: Annotation| a.image_id == i),
        ).flatten(),
{
    let f = |i: u32| annotations_listed(d, annotation_ids_by_image(d), i);
    let g = |i: u32| d.annotations.filter(|a: Annotation| a.image_id == i);
    assert(annotations_of_images(d, ids) == ids.map_values(f).flatten());
    assert forall|k: int| 0 <= k < ids.len() implies ids.map_values(f)[k] == ids.map_values(
        g,
    )[k] by {
        law_image_lists_its_annotations(d, ids[k]);
    }
    assert(ids.map_values(f) =~= ids.map_values(g));
}

/// When annotation ids are distinct, a filter query given only category ids
/// finds what the category query finds, and one given only image ids finds
/// what the image query finds: for each id in turn, every annotation that
/// carries it, in dataset order. A query given neither finds nothing.
pub proof fn law_single_filters_give_their_annotations(
    d: COCODetectionView,
    imgs: Seq<u32>,
    cats: Seq<u32>,
)
    requires
        d.annotations.len() <= usize::MAX,
        annotation_ids_of(d.annotations).no_duplicates(),
    ensures
        annotations_from_filters(d, None, None).len() == 0,
        annotations_from_filters(d, None, Some(cats)) == cats.map_values(
            |c: u32| d.annotations.filter(|a: Annotation| a.category_id == c),
        ).flatten(),
        annotations_from_filters(d, Some(imgs), None) == imgs.map_values(
            |i: u32| d.annotations.filter(|a: Annotation| a.image_id == i),
        ).flatten(),
{
    law_category_query_gives_its_annotations(d, cats);
    law_image_query_gives_its_annotations(d, imgs);
}

/// A value paired with key `k` is listed among the values of `k`.
proof fn lemma_pair_has_value<K, V>(pairs: Seq<(K, V)>, j: int)
    requires
        0 <= j < pairs.len(),
    ensures
        values_of(pairs, pairs[j].0).contains(pairs[j].1),
    decreases pairs.len(),
{
    let pre = pairs.drop_last();
    let x = pairs.last();
    let k = pairs[j].0;
    if j == pairs.len() - 1 {
        let vs = values_of(pairs, k);
        assert(vs == values_of(pre, k).push(x.1));
        assert(vs[vs.len() - 1] == x.1);
    } else {
        assert(pre[j] == pairs[j]);
        lemma_pair_has_value(pre, j);
        let w = values_of(pre, k);
        let m = choose|m: int| 0 <= m < w.len() && w[m] == pairs[j].1;
        if x.0 == k {
            assert(values_of(pairs, k) == w.push(x.1));
            assert(values_of(pairs, k)[m] == pairs[j].1);
        } else {
            assert(values_of(pairs, k) == w);
        }
    }
}

/// An image id is listed under a category exactly when some annotation of
/// the dataset carries both.
proof fn lemma_category_lists_image(d: COCODetectionView, c: u32, z: u32)
    ensures
        (image_ids_by_category(d).contains_key(c) && image_ids_by_category(d)[c].contains(z))
            <==> exists|a: Annotation|
            #[trigger] d.annotations.contains(a) && a.category_id == c && a.image_id == z,
{
    let pairs = d.annotations.map_values(|a: Annotation| (a.category_id, a.image_id));
    lemma_grouped(pairs);
    if image_ids_by_category(d).contains_key(c) && image_ids_by_category(d)[c].contains(z) {
        let i = lemma_value_has_pair(pairs, c, z);
        assert(d.annotations.contains(d.annotations[i]));
        assert(d.annotations[i].category_id == c && d.annotations[i].image_id == z);
    }
    if exists|a: Annotation|
        #[trigger] d.annotations.contains(a) && a.category_id == c && a.image_id == z {
        let a = choose|a: Annotation|
            #[trigger] d.annotations.contains(a) && a.category_id == c && a.image_id == z;
        let j = choose|j: int| 0 <= j < d.annotations.len() && d.annotations[j] == a;
        assert(pairs[j] == (c, z));
        assert(pairs[j].0 == c);
        assert(image_ids_by_category(d).contains_key(c));
        lemma_pair_has_value(pairs, j);
    }
}

/// When annotation ids are distinct, the image query finds an annotation
/// exactly when it is an annotation of the dataset whose image is asked for.
pub proof fn law_image_query_membership(d: COCODetectionView, imgs: Seq<u32>, a: Annotation)
    requires
        d.annotations.len() <= usize::MAX,
        annotation_ids_of(d.annotations).no_duplicates(),
    ensures
        annotations_of_images(d, imgs).contains(a) <==> d.annotations.contains(a)
            && imgs.contains(a.image_id),
{
    let g = |i: u32| d.annotations.filter(|x: Annotation| x.image_id == i);
    law_image_query_gives_its_annotations(d, imgs);
    assert(annotations_of_images(d, imgs) == imgs.map_values(g).flatten());
    lemma_flatten_contains(imgs.map_values(g), a);
    if annotations_of_images(d, imgs).contains(a) {
        let i = choose|i: int| 0 <= i < imgs.len() && #[trigger] imgs.map_values(g)[i].contains(a);
        lemma_filter_contains_iff(d.annotations, |x: Annotation| x.image_id == imgs[i], a);
        assert(imgs.contains(imgs[i]));
    }
    if d.annotations.contains(a) && imgs.contains(a.image_id) {
        let i = choose|i: int| 0 <= i < imgs.len() && imgs[i] == a.image_id;
        lemma_filter_contains_iff(d.annotations, |x: Annotation| x.image_id == imgs[i], a);
        assert(imgs.map_values(g)[i].contains(a));
    }
}

/// An image id is a candidate of a filter query exactly when some annotation
/// of the dataset carries it, belongs to an asked image when image ids are
/// given, and to an asked category when category ids are given; a query
/// given neither has no candidates. Where image ids are given, this holds
/// when annotation ids are distinct.
pub proof fn law_image_candidates_are_annotated_images(
    d: COCODetectionView,
    image_ids: Option<Seq<u32>>,
    category_ids: Option<Seq<u32>>,
    z: u32,
)
    requires
        d.annotations.len() <= usize::MAX,
        image_ids is Some ==> annotation_ids_of(d.annotations).no_duplicates(),
    ensures
        image_ids is None && category_ids is None ==> image_candidates(
            d,
            image_ids,
            category_ids,
        ).len() == 0,
        image_ids is Some || category_ids is Some ==> (image_candidates(
            d,
            image_ids,
            category_ids,
        ).contains(z) <==> exists|a: Annotation|
            #[trigger] d.annotations.contains(a) && a.image_id == z && (image_ids matches Some(
                imgs,
            ) ==> imgs.contains(z)) && (category_ids matches Some(cats) ==> cats.contains(
                a.category_id,
            ))),
{
    let cand = image_candidates(d, image_ids, category_ids);
    match (image_ids, category_ids) {
        (None, None) => {},
        (None, Some(cats)) => {
            let f = |c: u32|
                if image_ids_by_category(d).contains_key(c) {
                    image_ids_by_category(d)[c]
                } else {
                    Seq::empty()
                };
            assert(cand == cats.map_values(f).flatten());
            lemma_flatten_contains(cats.map_values(f), z);
            if cand.contains(z) {
                let i = choose|i: int| 0 <= i < cats.len() && #[trigger] cats.map_values(f)[i].contains(z);
                lemma_category_lists_image(d, cats[i], z);
                let a = choose|a: Annotation|
                    #[trigger] d.annotations.contains(a) && a.category_id == cats[i] && a.image_id == z;
                assert(cats.contains(a.category_id));
            }
            if exists|a: Annotation|
                #[trigger] d.annotations.contains(a) && a.image_id == z && cats.contains(a.category_id) {
                let a = choose|a: Annotation|
                    #[trigger] d.annotations.contains(a) && a.image_id == z && cats.contains(a.category_id);
                let i = choose|i: int| 0 <= i < cats.len() && cats[i] == a.category_id;
                lemma_category_lists_image(d, cats[i], z);
                assert(cats.map_values(f)[i].contains(z));
            }
        },
        (Some(imgs), None) => {
            let s = annotations_of_images(d, imgs);
            assert(cand == image_ids_of_annotations(s));
            lemma_image_ids_contains(s, z);
            if cand.contains(z) {
                let k = choose|k: int| 0 <= k < s.len() && (#[trigger] s[k]).image_id == z;
                assert(s.contains(s[k]));
                law_image_query_membership(d, imgs, s[k]);
            }
            if exists|a: Annotation|
                #[trigger] d.annotations.contains(a) && a.image_id == z && imgs.contains(z) {
                let a = choose|a: Annotation|
                    #[trigger] d.annotations.contains(a) && a.image_id == z && imgs.contains(z);
                law_image_query_membership(d, imgs, a);
                let k = choose|k: int| 0 <= k < s.len() && s[k] == a;
            }
        },
        (Some(imgs), Some(cats)) => {
            let t = annotations_of_images(d, imgs);
            let p = |a: Annotation| cats.contains(a.category_id);
            let s = t.filter(p);
            assert(cand == image_ids_of_annotations(s));
            lemma_image_ids_contains(s, z);
            if cand.contains(z) {
                let k = choose|k: int| 0 <= k < s.len() && (#[trigger] s[k]).image_id == z;
                assert(s.contains(s[k]));
                lemma_filter_contains_iff(t, p, s[k]);
                law_image_query_membership(d, imgs, s[k]);
            }
            if exists|a: Annotation|
                #[trigger] d.annotations.contains(a) && a.image_id == z && imgs.contains(z)
                    && cats.contains(a.category_id) {
                let a = choose|a: Annotation|
                    #[trigger] d.annotations.contains(a) && a.image_id == z && imgs.contains(z)
                        && cats.contains(a.category_id);
                law_image_query_membership(d, imgs, a);
                lemma_filter_contains_iff(t, p, a);
                let k = choose|k: int| 0 <= k < s.len() && s[k] == a;
            }
        },
    }
}

/// A value is among the `Some` payloads of a sequence exactly when the
/// sequence holds it wrapped in `Some`.
proof fn lemma_somes_contains<A>(s: Seq<Option<A>>, x: A)
    ensures
        somes(s).contains(x) <==> s.contains(Some(x)),
    decreases s.len(),
{
    if s.len() > 0 {
        let pre = s.drop_last();
        lemma_somes_contains(pre, x);
        assert(s == pre.push(s.last()));
        let r = somes(pre);
        if somes(s).contains(x) {
            let k = choose|k: int| 0 <= k < somes(s).len() && somes(s)[k] == x;
            match s.last() {
                Some(y) => {
                    if k < r.len() {
                        assert(r[k] == x);
                        let j = choose|j: int| 0 <= j < pre.len() && pre[j] == Some(x);
                        assert(s[j] == Some(x));
                    } else {
                        assert(s[s.len() - 1] == Some(x));
                    }
                },
                None => {
                    assert(r[k] == x);
                    let j = choose|j: int| 0 <= j < pre.len() && pre[j] == Some(x);
                    assert(s[j] == Some(x));
                },
            }
        }
        if s.contains(Some(x)) {
            let j = choose|j: int| 0 <= j < s.len() && s[j] == Some(x);
            if j == s.len() - 1 {
                assert(somes(s) == r.push(x));
                assert(somes(s)[r.len() as int] == x);
            } else {
                assert(pre[j] == Some(x));
                let k = choose|k: int| 0 <= k < r.len() && r[k] == x;
                match s.last() {
                    Some(y) => {
                        assert(somes(s) == r.push(y));
                        assert(somes(s)[k] == x);
                    },
                    None => {
                        assert(somes(s) == r);
                    },
                }
            }
        }
    }
}

/// When image ids are distinct, looking up an id finds an image exactly
/// when that image belongs to the dataset and carries the id.
proof fn lemma_unique_image_lookup(d: COCODetectionView, id: u32, x: COCOImage)
    requires
        d.images.len() <= usize::MAX,
        image_ids_of(d.images).no_duplicates(),
    ensures
        image_by_id(d, id) == Some(x) <==> d.images.contains(x) && x.id == id,
{
    law_image_lookup_matches_id(d, id);
    let ids = image_ids_of(d.images);
    lemma_last_positions(ids);
    if d.images.contains(x) && x.id == id {
        let i = choose|i: int| 0 <= i < d.images.len() && d.images[i] == x;
        assert(ids[i] == id);
        assert(ids.contains(id));
        let p = last_positions(ids)[id] as int;
        assert(ids[p] == ids[i]);
    }
}

/// When image ids are distinct, the images that a filter query finds are
/// exactly the images of the dataset whose ids are candidates of the query;
/// together with their increasing order, this fixes the answer.
pub proof fn law_images_from_filters_are_candidate_images(
    d: COCODetectionView,
    image_ids: Option<Seq<u32>>,
    category_ids: Option<Seq<u32>>,
    x: COCOImage,
)
    requires
        d.images.len() <= usize::MAX,
        image_ids_of(d.images).no_duplicates(),
    ensures
        images_from_filters(d, image_ids, category_ids).contains(x) <==> d.images.contains(x)
            && image_candidates(d, image_ids, category_ids).contains(x.id),
{
    let c = image_candidates(d, image_ids, category_ids);
    let u = sorted_distinct(c);
    crate::seq_spec::lemma_sorted_distinct_props(c);
    let s = u.map_values(|id: u32| image_by_id(d, id));
    assert(images_from_filters(d, image_ids, category_ids) == somes(s));
    lemma_somes_contains(s, x);
    if s.contains(Some(x)) {
        let k = choose|k: int| 0 <= k < s.len() && s[k] == Some(x);
        lemma_unique_image_lookup(d, u[k], x);
        assert(u.to_set().contains(u[k]));
        assert(c.to_set().contains(x.id));
    }
    if d.images.contains(x) && c.contains(x.id) {
        assert(c.to_set().contains(x.id));
        assert(u.to_set().contains(x.id));
        let k = choose|k: int| 0 <= k < u.len() && u[k] == x.id;
        lemma_unique_image_lookup(d, u[k], x);
        assert(s[k] == Some(x));
    }
}

/// The values under a key of pairs built from annotations are the image ids
/// of the annotations that carry that key.
proof fn lemma_listed_image_ids(anns: Seq<Annotation>, k: u32)
    ensures
        values_of(anns.map_values(|a: Annotation| (a.category_id, a.image_id)), k)
            == image_ids_of_annotations(anns.filter(|a: Annotation| a.category_id == k)),
    decreases anns.len(),
{
    let pred = |a: Annotation| a.category_id == k;
    if anns.len() == 0 {
        assert(anns.filter(pred) =~= Seq::<Annotation>::empty()) by {
            reveal(Seq::filter);
        }
        assert(image_ids_of_annotations(Seq::<Annotation>::empty()) =~= Seq::<u32>::empty());
    } else {
        let pre = anns.drop_last();
        let x = anns.last();
        lemma_listed_image_ids(pre, k);
        assert(anns == pre.push(x));
        pre.lemma_filter_push(x, pred);
        assert(anns.map_values(|a: Annotation| (a.category_id, a.image_id)).drop_last()
            =~= pre.map_values(|a: Annotation| (a.category_id, a.image_id)));
        assert(image_ids_of_annotations(pre.filter(pred).push(x)) =~= image_ids_of_annotations(
            pre.filter(pred),
        ).push(x.image_id));
    }
}

/// A category is listed in the category-to-images table exactly when some
/// annotation carries it, and its list holds the image id of each of its
/// annotations, in dataset order (an image once per annotation).
pub proof fn law_category_lists_images_of_its_annotations(d: COCODetectionView, c: u32)
    ensures
        image_ids_by_category(d).contains_key(c) <==> exists|i: int|
            0 <= i < d.annotations.len() && (#[trigger] d.annotations[i]).category_id == c,
        image_ids_by_category(d).contains_key(c) ==> image_ids_by_category(d)[c]
            == image_ids_of_annotations(d.annotations.filter(|a: Annotation| a.category_id == c)),
{
    let pairs = d.annotations.map_values(|a: Annotation| (a.category_id, a.image_id));
    lemma_grouped(pairs);
    lemma_listed_image_ids(d.annotations, c);
    if image_ids_by_category(d).contains_key(c) {
        let i = choose|i: int| 0 <= i < pairs.len() && (#[trigger] pairs[i]).0 == c;
        assert(d.annotations[i].category_id == c);
    }
    if exists|i: int| 0 <= i < d.annotations.len() && (#[trigger] d.annotations[i]).category_id == c {
        let i = choose|i: int|
            0 <= i < d.annotations.len() && (#[trigger] d.annotations[i]).category_id == c;
        assert(pairs[i].0 == c);
    }
}

/// The image-to-annotations and category-to-annotations tables have a key
/// exactly when some annotation carries it, and list under it the ids of
/// the annotations that carry it, in dataset order.
pub proof fn law_tables_list_annotation_ids(d: COCODetectionView, k: u32)
    ensures
        annotation_ids_by_image(d).contains_key(k) <==> exists|i: int|
            0 <= i < d.annotations.len() && (#[trigger] d.annotations[i]).image_id == k,
        annotation_ids_by_image(d).contains_key(k) ==> annotation_ids_by_image(d)[k]
            == annotation_ids_of(d.annotations.filter(|a: Annotation| a.image_id == k)),
        annotation_ids_by_category(d).contains_key(k) <==> exists|i: int|
            0 <= i < d.annotations.len() && (#[trigger] d.annotations[i]).category_id == k,
        annotation_ids_by_category(d).contains_key(k) ==> annotation_ids_by_category(d)[k]
            == annotation_ids_of(d.annotations.filter(|a: Annotation| a.category_id == k)),
{
    let by_image = |a: Annotation| a.image_id;
    let by_category = |a: Annotation| a.category_id;
    let ip = d.annotations.map_values(|a: Annotation| (a.image_id, a.id));
    let cp = d.annotations.map_values(|a: Annotation| (a.category_id, a.id));
    assert(ip =~= d.annotations.map_values(|a: Annotation| (by_image(a), a.id)));
    assert(cp =~= d.annotations.map_values(|a: Annotation| (by_category(a), a.id)));
    lemma_grouped(ip);
    lemma_grouped(cp);
    lemma_listed_ids(d.annotations, by_image, k);
    lemma_listed_ids(d.annotations, by_category, k);
    assert(d.annotations.filter(|a: Annotation| by_image(a) == k) =~= d.annotations.filter(
        |a: Annotation| a.image_id == k,
    )) by {
        assert((|a: Annotation| by_image(a) == k) =~= (|a: Annotation| a.image_id == k));
    }
    assert(d.annotations.filter(|a: Annotation| by_category(a) == k) =~= d.annotations.filter(
        |a: Annotation| a.category_id == k,
    )) by {
        assert((|a: Annotation| by_category(a) == k) =~= (|a: Annotation| a.category_id == k));
    }
    if annotation_ids_by_image(d).contains_key(k) {
        let i = choose|i: int| 0 <= i < ip.len() && (#[trigger] ip[i]).0 == k;
        assert(d.annotations[i].image_id == k);
    }
    if exists|i: int| 0 <= i < d.annotations.len() && (#[trigger] d.annotations[i]).image_id == k {
        let i = choose|i: int| 0 <= i < d.annotations.len() && (#[trigger] d.annotations[i]).image_id == k;
        assert(ip[i].0 == k);
    }
    if annotation_ids_by_category(d).contains_key(k) {
        let i = choose|i: int| 0 <= i < cp.len() && (#[trigger] cp[i]).0 == k;
        assert(d.annotations[i].category_id == k);
    }
    if exists|i: int|
        0 <= i < d.annotations.len() && (#[trigger] d.annotations[i]).category_id == k {
        let i = choose|i: int|
            0 <= i < d.annotations.len() && (#[trigger] d.annotations[i]).category_id == k;
        assert(cp[i].0 == k);
    }
}

/// When each pair carries its own position, the positions listed under a
/// key lie before the end and increase strictly.
proof fn lemma_positions_increasing<K>(pairs: Seq<(K, usize)>, k: K)
    requires
        forall|i: int| 0 <= i < pairs.len() ==> (#[trigger] pairs[i]).1 as int == i,
    ensures
        forall|x: int|
            0 <= x < values_of(pairs, k).len() ==> (#[trigger] values_of(pairs, k)[x]) < pairs.len(),
        forall|x: int, y: int|
            0 <= x < y < values_of(pairs, k).len() ==> values_of(pairs, k)[x] < values_of(
                pairs,
                k,
            )[y],
    decreases pairs.len(),
{
    if pairs.len() > 0 {
        let pre = pairs.drop_last();
        assert forall|i: int| 0 <= i < pre.len() implies (#[trigger] pre[i]).1 as int == i by {
            assert(pre[i] == pairs[i]);
        }
        lemma_positions_increasing(pre, k);
        let last = pairs[pairs.len() - 1];
        assert(last.1 as int == pairs.len() - 1);
        let v = values_of(pairs, k);
        let w = values_of(pre, k);
        if last.0 == k {
            assert(v == w.push(last.1));
            assert forall|x: int, y: int| 0 <= x < y < v.len() implies v[x] < v[y] by {
                assert(v[x] == w[x]);
                if y < w.len() {
                    assert(v[y] == w[y]);
                }
            }
            assert forall|x: int| 0 <= x < v.len() implies (#[trigger] v[x]) < pairs.len() by {
                if x < w.len() {
                    assert(v[x] == w[x]);
                }
            }
        } else {
            assert(v == w);
        }
    }
}

/// Grouping positions by (image id, category id) lists a pair exactly when
/// it occurs, and under it exactly the positions where it occurs, in
/// strictly increasing order.
pub proof fn law_grouping_lists_positions(
    image_ids: Seq<u32>,
    category_ids: Seq<u32>,
    k: (u32, u32),
    x: usize,
)
    requires
        image_ids.len() == category_ids.len(),
        image_ids.len() <= usize::MAX,
    ensures
        grouped(keyed_positions(image_ids, category_ids)).contains_key(k) <==> exists|i: int|
            0 <= i < image_ids.len() && #[trigger] image_ids[i] == k.0 && category_ids[i] == k.1,
        grouped(keyed_positions(image_ids, category_ids)).contains_key(k) ==> (grouped(
            keyed_positions(image_ids, category_ids),
        )[k].contains(x) <==> x < image_ids.len() && image_ids[x as int] == k.0
            && category_ids[x as int] == k.1),
        grouped(keyed_positions(image_ids, category_ids)).contains_key(k) ==> forall|i: int, j: int|
            0 <= i < j < grouped(keyed_positions(image_ids, category_ids))[k].len() ==> grouped(
                keyed_positions(image_ids, category_ids),
            )[k][i] < grouped(keyed_positions(image_ids, category_ids))[k][j],
{
    let pairs = keyed_positions(image_ids, category_ids);
    lemma_grouped(pairs);
    lemma_positions_increasing(pairs, k);
    if grouped(pairs).contains_key(k) {
        let i = choose|i: int| 0 <= i < pairs.len() && (#[trigger] pairs[i]).0 == k;
        assert(image_ids[i] == k.0 && category_ids[i] == k.1);
        if values_of(pairs, k).contains(x) {
            let p = lemma_value_has_pair(pairs, k, x);
            assert(pairs[p] == (k, x));
        }
        if x < image_ids.len() && image_ids[x as int] == k.0 && category_ids[x as int] == k.1 {
            assert(pairs[x as int] == (k, x));
            lemma_pair_has_value(pairs, x as int);
        }
    }
    if exists|i: int|
        0 <= i < image_ids.len() && #[trigger] image_ids[i] == k.0 && category_ids[i] == k.1 {
        let i = choose|i: int|
            0 <= i < image_ids.len() && #[trigger] image_ids[i] == k.0 && category_ids[i] == k.1;
        assert(pairs[i].0 == k);
    }
}

} // verus!
