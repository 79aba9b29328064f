use coco::coco::{COCOIndices, COCO};
use coco::coco_types::{
    Annotation, COCOCategory, COCODetection, COCOEntry, COCOImage, COCOPrediction,
    COCOPredictions,
};

fn image(id: u32, width: u32) -> COCOImage {
    COCOImage {
        license: None,
        filename: None,
        coco_url: None,
        height: 1,
        width,
        data_captured: None,
        flickr_url: None,
        id,
    }
}

fn annotation(id: u128, image_id: u32, category_id: u32) -> Annotation {
    Annotation { area: 0, iscrowd: 0, image_id, bbox: [0; 4], category_id, id }
}

fn category(id: u32) -> COCOCategory {
    COCOCategory { supercategory: String::new(), id, name: format!("c{}", id) }
}

fn small_coco() -> COCO {
    let images = vec![image(30, 1), image(10, 2), image(20, 3)];
    let annotations = vec![
        annotation(7, 30, 2),
        annotation(5, 10, 1),
        annotation(9, 30, 1),
        annotation(6, 20, 2),
        annotation(8, 10, 2),
    ];
    let categories = vec![category(2), category(1)];
    COCO::new("root".to_string(), COCODetection::new(images, annotations, categories))
}

#[test]
fn create_index_keeps_last_position_of_each_id() {
    let entries = [image(5, 1), image(3, 2), image(5, 3)];
    let index = COCOIndices::create_index(&entries);
    assert_eq!(index.len(), 2);
    assert_eq!(index[&5], 2);
    assert_eq!(index[&3], 1);
    let cats = [category(4)];
    let cat_index = COCOIndices::create_index(&cats);
    assert_eq!(cat_index[&4], 0);
}

#[test]
fn duplicate_image_id_resolves_to_last_image() {
    let coco = COCO::new(
        String::new(),
        COCODetection::new(vec![image(4, 100), image(4, 200)], Vec::new(), Vec::new()),
    );
    let found = coco.get_images_from_ids(&[4]);
    assert_eq!(found[0].map(|i| i.width), Some(200));
}

#[test]
fn entries_report_their_ids() {
    assert_eq!(image(12, 1).get_id(), 12);
    assert_eq!(annotation(99, 1, 1).get_id(), 99);
    assert_eq!(category(3).get_id(), 3);
    let img = image(41, 1);
    let ann = annotation(42, 1, 1);
    let cat = category(43);
    assert_eq!(<&COCOImage as COCOEntry>::get_id(&&img), 41);
    assert_eq!(<&Annotation as COCOEntry>::get_id(&&ann), 42);
    assert_eq!(<&COCOCategory as COCOEntry>::get_id(&&cat), 43);
}

#[test]
fn lookups_return_entries_with_the_asked_ids() {
    let coco = small_coco();
    let imgs = coco.get_images_from_ids(&[20, 11, 30]);
    assert_eq!(imgs.iter().map(|o| o.map(|i| i.id)).collect::<Vec<_>>(), vec![Some(20), None, Some(30)]);
    let anns = coco.get_annotations_from_ids(&[9, 4, 5]);
    assert_eq!(anns.iter().map(|o| o.map(|a| a.image_id)).collect::<Vec<_>>(), vec![Some(30), None, Some(10)]);
    let cats = coco.get_categories_from_ids(&[1, 2, 3]);
    assert_eq!(cats.iter().map(|o| o.map(|c| c.id)).collect::<Vec<_>>(), vec![Some(1), Some(2), None]);
}

#[test]
fn annotations_of_images_follow_query_order() {
    let coco = small_coco();
    let found = coco.get_possible_annotations_from_image_ids(&[10, 30]).unwrap();
    assert_eq!(found.iter().map(|a| a.id).collect::<Vec<_>>(), vec![5, 8, 7, 9]);
}

#[test]
fn annotations_of_categories_follow_query_order() {
    let coco = small_coco();
    let found = coco.get_possible_annotations_from_category_ids(&[1, 2]).unwrap();
    assert_eq!(found.iter().map(|a| a.id).collect::<Vec<_>>(), vec![5, 9, 7, 6, 8]);
}

#[test]
fn both_filters_keep_annotations_of_the_categories() {
    let coco = small_coco();
    let found = coco.get_possible_annotations_from_filters(Some(&[30, 10]), Some(&[2])).unwrap();
    assert_eq!(found.iter().map(|a| a.id).collect::<Vec<_>>(), vec![7, 8]);
}

#[test]
fn images_from_filters_are_sorted_and_distinct() {
    let coco = small_coco();
    let found = coco.get_possible_images_from_filters(None, Some(&[2, 1])).unwrap();
    assert_eq!(found.iter().map(|i| i.id).collect::<Vec<_>>(), vec![10, 20, 30]);
    let by_images = coco.get_possible_images_from_filters(Some(&[30, 10, 30]), None).unwrap();
    assert_eq!(by_images.iter().map(|i| i.id).collect::<Vec<_>>(), vec![10, 30]);
}

#[test]
fn images_from_filters_skip_unknown_images() {
    let coco = COCO::new(
        String::new(),
        COCODetection::new(vec![image(2, 1)], vec![annotation(1, 9, 4), annotation(2, 2, 4)], vec![]),
    );
    let found = coco.get_possible_images_from_filters(None, Some(&[4])).unwrap();
    assert_eq!(found.iter().map(|i| i.id).collect::<Vec<_>>(), vec![2]);
    let only_unknown = COCO::new(
        String::new(),
        COCODetection::new(Vec::new(), vec![annotation(1, 9, 4)], vec![]),
    );
    assert_eq!(only_unknown.get_possible_images_from_filters(None, Some(&[4])).map(|v| v.len()), Some(0));
}

#[test]
fn listing_all_entries() {
    let coco = small_coco();
    assert_eq!(coco.get_all_image_ids(), vec![30, 10, 20]);
    assert_eq!(coco.get_all_category_ids(), vec![2, 1]);
    assert_eq!(coco.get_all_annotations().iter().map(|a| a.id).collect::<Vec<_>>(), vec![7, 5, 9, 6, 8]);
}

#[test]
fn predictions_are_stored() {
    let mut coco = small_coco();
    assert!(coco.get_all_results().is_none());
    let p = COCOPrediction { image_id: 10, category_id: 1, bbox: [0; 4], score: 7, area: 0 };
    coco.load_coco_predictions(COCOPredictions { predictions: vec![p] });
    let results = coco.get_all_results().unwrap();
    assert_eq!(results.predictions.len(), 1);
    assert_eq!(results.predictions[0].score, 7);
}

#[test]
fn index_tables_describe_the_dataset() {
    let coco = small_coco();
    let indices = coco.coco_indices();
    assert_eq!(indices.image_id_to_image()[&10], 1);
    assert_eq!(indices.annotation_id_to_annotation()[&6], 3);
    assert_eq!(indices.category_id_to_category()[&1], 1);
    assert_eq!(indices.image_id_to_annotation_ids()[&30], vec![7, 9]);
    assert_eq!(indices.category_id_to_image_ids()[&2], vec![30, 20, 10]);
    assert_eq!(indices.category_id_to_annotation_ids()[&1], vec![5, 9]);
}

#[test]
fn dataset_sorting_by_id() {
    let mut d = COCODetection::new(
        vec![image(3, 1), image(1, 2), image(2, 3)],
        vec![annotation(9, 1, 1), annotation(4, 1, 1)],
        vec![category(8), category(2)],
    );
    d.sort_images_inplace();
    d.sort_annots_inplace();
    d.sort_categories_inplace();
    assert_eq!(d.get_all_image_ids(), vec![1, 2, 3]);
    assert_eq!(d.get_all_annotation_ids(), vec![4, 9]);
    assert_eq!(d.categories().iter().map(|c| c.id).collect::<Vec<_>>(), vec![2, 8]);
    assert_eq!(d.get_image_at_index(0).map(|i| i.width), Some(2));
    assert!(d.get_image_at_index(3).is_none());
    assert_eq!(d.get_annotation_at_index(1).map(|a| a.id), Some(9));
    assert_eq!(d.get_category_at_index(0).map(|c| c.id), Some(2));
    assert!(d.get_category_at_index(2).is_none());
}

#[test]
fn dataset_iteration_and_image_filter() {
    let d = COCODetection::new(
        vec![image(1, 1), image(2, 1)],
        vec![annotation(1, 2, 1), annotation(2, 1, 1), annotation(3, 2, 5)],
        vec![category(1)],
    );
    assert_eq!(d.iter_images().count(), 2);
    assert_eq!(d.iter_annotations().map(|a| a.id).collect::<Vec<_>>(), vec![1, 2, 3]);
    assert_eq!(d.iter_categories().count(), 1);
    let of_image_2 = d.get_annotations_from_image_ids(&[2]);
    assert_eq!(of_image_2.iter().map(|a| a.id).collect::<Vec<_>>(), vec![1, 3]);
    assert!(d.get_annotations_from_image_ids(&[]).is_empty());
}

#[test]
fn image_filters_ignore_order_and_repeats() {
    let coco = small_coco();
    let ids = |r: Option<Vec<&COCOImage>>| r.map(|v| v.iter().map(|i| i.id).collect::<Vec<_>>());
    assert_eq!(
        ids(coco.get_possible_images_from_filters(Some(&[10, 30]), Some(&[2, 1]))),
        ids(coco.get_possible_images_from_filters(Some(&[30, 10, 10]), Some(&[1, 2, 1])))
    );
    assert_eq!(
        ids(coco.get_possible_images_from_filters(None, Some(&[1, 2]))),
        ids(coco.get_possible_images_from_filters(None, Some(&[2, 2, 1])))
    );
    assert_eq!(
        ids(coco.get_possible_images_from_filters(Some(&[20]), None)),
        ids(coco.get_possible_images_from_filters(Some(&[20, 20]), None))
    );
}
