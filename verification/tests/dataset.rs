use coco::coco::COCO;
use coco::coco_types::{Annotation, COCOCategory, COCODetection, COCOImage};

const CATEGORY_103_IMAGES: [u32; 12] = [
    120584, 171757, 173302, 199771, 352582, 352684, 353970, 405195, 417249, 425221, 483999,
    491497,
];

const CATEGORY_108_IMAGES: [u32; 20] = [
    22705, 45229, 54654, 146155, 175364, 190236, 192047, 205514, 222825, 229311, 242934, 248400,
    287714, 297353, 415741, 416343, 481386, 488673, 517056, 532901,
];

fn image(id: u32) -> COCOImage {
    COCOImage {
        license: Some(1),
        filename: Some(format!("{:012}.jpg", id)),
        coco_url: None,
        height: 480,
        width: 640,
        data_captured: None,
        flickr_url: None,
        id,
    }
}

fn annotation(id: u128, image_id: u32, category_id: u32) -> Annotation {
    Annotation {
        area: 0x4120_0000,
        iscrowd: 0,
        image_id,
        bbox: [0, 0, 0x4120_0000, 0x4120_0000],
        category_id,
        id,
    }
}

fn category(id: u32, name: &str) -> COCOCategory {
    COCOCategory { supercategory: "stuff".to_string(), id, name: name.to_string() }
}

/// A small dataset laid out like the validation split the queries were
/// first checked against: image 139, image 8211 with 11 annotations (one of
/// category 92, one of category 96), images 581781 and 170278 with their
/// annotation runs, category 92 spread over 141 images, category 93 over
/// 128 other images, and categories 103 and 108 over the listed images.
fn get_shared_coco() -> COCO {
    let mut images: Vec<COCOImage> = Vec::new();
    let mut annotations: Vec<Annotation> = Vec::new();
    let mut next_id: u128 = 20000000;
    let mut add = |annotations: &mut Vec<Annotation>, image_id: u32, category_id: u32| {
        annotations.push(annotation(next_id, image_id, category_id));
        next_id += 1;
    };

    images.push(image(139));
    add(&mut annotations, 139, 180);
    add(&mut annotations, 139, 1);

    images.push(image(8211));
    add(&mut annotations, 8211, 92);
    add(&mut annotations, 8211, 96);
    for _ in 0..9 {
        add(&mut annotations, 8211, 1);
    }

    for k in 0..140u32 {
        images.push(image(300000 + k));
        add(&mut annotations, 300000 + k, 92);
    }
    for k in 0..128u32 {
        images.push(image(400000 + k));
        add(&mut annotations, 400000 + k, 93);
    }
    for &img in CATEGORY_103_IMAGES.iter() {
        images.push(image(img));
        add(&mut annotations, img, 103);
    }
    for &img in CATEGORY_108_IMAGES.iter() {
        images.push(image(img));
        add(&mut annotations, img, 108);
    }

    images.push(image(581781));
    for id in 20032796u128..=20032800 {
        annotations.push(annotation(id, 581781, 1));
    }
    images.push(image(170278));
    for id in 20009250u128..=20009256 {
        annotations.push(annotation(id, 170278, 1));
    }

    let categories = vec![
        category(1, "things"),
        category(92, "banner"),
        category(93, "blanket"),
        category(96, "building-other"),
        category(103, "cage"),
        category(108, "cloth"),
        category(180, "window-other"),
    ];
    COCO::new(".".to_string(), COCODetection::new(images, annotations, categories))
}

// --- IMAGE TO ANNOTATION ID MAPPING ---

#[test]
fn test_annotation_count_for_image_581781() {
    let coco = get_shared_coco();
    let ids = coco.coco_indices().image_id_to_annotation_ids().get(&581781);
    assert_eq!(ids.map(|v| v.len()), Some(5), "Image ID 581781 should have exactly 5 annotations");
}

#[test]
fn test_annotation_count_for_image_170278() {
    let coco = get_shared_coco();
    let ids = coco.coco_indices().image_id_to_annotation_ids().get(&170278);
    assert_eq!(ids.map(|v| v.len()), Some(7), "Image ID 170278 should have exactly 7 annotations");
}

#[test]
fn test_annotation_count_for_missing_image_0() {
    let coco = get_shared_coco();
    let ids = coco.coco_indices().image_id_to_annotation_ids().get(&0);
    assert!(ids.is_none(), "Non-existent Image ID 0 should return None for annotation mapping");
}

#[test]
fn test_exact_annotation_ids_for_image_581781() {
    let coco = get_shared_coco();
    let ids = coco.coco_indices().image_id_to_annotation_ids().get(&581781);
    assert_eq!(
        ids.map(|v| v.as_slice()),
        Some([20032796, 20032797, 20032798, 20032799, 20032800].as_slice()),
        "Mismatch in expected annotation ID sequence for Image ID 581781"
    );
}

#[test]
fn test_exact_annotation_ids_for_image_170278() {
    let coco = get_shared_coco();
    let ids = coco.coco_indices().image_id_to_annotation_ids().get(&170278);
    assert_eq!(
        ids.map(|v| v.as_slice()),
        Some([20009250, 20009251, 20009252, 20009253, 20009254, 20009255, 20009256].as_slice()),
        "Mismatch in expected annotation ID sequence for Image ID 170278"
    );
}

// --- CATEGORY TO IMAGE ID MAPPING ---

#[test]
fn test_cat_ids_len_for_category_103() {
    let coco = get_shared_coco();
    let ids = coco.coco_indices().category_id_to_image_ids().get(&103);
    assert_eq!(ids.map(|v| v.len()), Some(12), "Category ID 103 should map to exactly 12 images");
}

#[test]
fn test_cat_ids_len_for_category_108() {
    let coco = get_shared_coco();
    let ids = coco.coco_indices().category_id_to_image_ids().get(&108);
    assert_eq!(ids.map(|v| v.len()), Some(20), "Category ID 108 should map to exactly 20 images");
}

#[test]
fn test_cat_ids_for_missing_category_0() {
    let coco = get_shared_coco();
    let ids = coco.coco_indices().category_id_to_image_ids().get(&0);
    assert!(ids.is_none(), "Non-existent Category ID 0 should return None for image mapping");
}

#[test]
fn test_exact_image_ids_for_category_103() {
    let coco = get_shared_coco();
    let ids = coco.coco_indices().category_id_to_image_ids().get(&103);
    assert_eq!(
        ids.map(|v| v.as_slice()),
        Some(
            [
                120584, 171757, 173302, 199771, 352582, 352684, 353970, 405195, 417249, 425221,
                483999, 491497
            ]
            .as_slice()
        ),
        "Mismatch in expected image IDs for Category ID 103"
    );
}

#[test]
fn test_exact_image_ids_for_category_108() {
    let coco = get_shared_coco();
    let ids = coco.coco_indices().category_id_to_image_ids().get(&108);
    assert_eq!(
        ids.map(|v| v.as_slice()),
        Some(
            [
                22705, 45229, 54654, 146155, 175364, 190236, 192047, 205514, 222825, 229311,
                242934, 248400, 287714, 297353, 415741, 416343, 481386, 488673, 517056, 532901
            ]
            .as_slice()
        ),
        "Mismatch in expected image IDs for Category ID 108"
    );
}

// --- STRUCTURAL INTEGRITY / INVARIANT TEST ---

#[test]
fn test_index_integrity_invariants() {
    let coco = get_shared_coco();
    let indices = coco.coco_indices();

    // Verify that every image referenced by a category actually contains annotations
    for (cat_id, image_ids) in indices.category_id_to_image_ids() {
        for image_id in image_ids {
            let annotations = indices.image_id_to_annotation_ids().get(image_id);
            assert!(
                annotations.is_some(),
                "Integrity failure: Category {} references Image {}, but that image has no indexed annotations",
                cat_id,
                image_id
            );
        }
    }
}

// --- GET IMAGES TESTS ---

#[test]
fn test_get_images_happy_path() {
    let coco = get_shared_coco();
    let result = coco.get_images_from_ids(&[139]);

    assert_eq!(result.len(), 1);
    assert!(result[0].is_some(), "Expected to find image with ID 139");
}

#[test]
fn test_get_images_edge_cases() {
    let coco = get_shared_coco();

    // Non-existent ID returns None
    let result = coco.get_images_from_ids(&[0]);
    assert_eq!(result.len(), 1);
    assert!(result[0].is_none(), "ID 0 should return None");

    // Empty query returns empty vector
    assert!(coco.get_images_from_ids(&[]).is_empty());
}

// --- GET ANNOTATIONS TESTS ---

#[test]
fn test_get_annotations_happy_path() {
    let coco = get_shared_coco();
    let result = coco.get_annotations_from_ids(&[20000000]);

    assert_eq!(result.len(), 1);
    assert!(result[0].is_some(), "Expected to find annotation with ID 20000000");
}

#[test]
fn test_get_annotations_edge_cases() {
    let coco = get_shared_coco();

    let result = coco.get_annotations_from_ids(&[0]);
    assert_eq!(result.len(), 1);
    assert!(result[0].is_none(), "ID 0 should return None");

    assert!(coco.get_annotations_from_ids(&[]).is_empty());
}

// --- GET CATEGORIES TESTS ---

#[test]
fn test_get_categories_happy_path() {
    let coco = get_shared_coco();
    let result = coco.get_categories_from_ids(&[180, 92]);

    assert_eq!(result.len(), 2);
    assert!(result[0].is_some(), "Expected to find category with ID 180");
    assert!(result[1].is_some(), "Expected to find category with ID 92");
}

#[test]
fn test_get_categories_edge_cases() {
    let coco = get_shared_coco();

    let result = coco.get_categories_from_ids(&[0]);
    assert_eq!(result.len(), 1);
    assert!(result[0].is_none(), "ID 0 should return None");

    assert!(coco.get_categories_from_ids(&[]).is_empty());
}

// --- POSSIBLE ANNOTATIONS FROM IMAGES ---

#[test]
fn test_get_possible_annotations_from_image_ids() {
    let coco = get_shared_coco();

    assert!(coco.get_possible_annotations_from_image_ids(&[]).is_none());
    assert!(coco.get_possible_annotations_from_image_ids(&[0]).is_none());
    assert!(coco.get_possible_annotations_from_image_ids(&[139]).is_some());
    assert!(coco.get_possible_annotations_from_image_ids(&[139, 0]).is_some());
}

// --- POSSIBLE ANNOTATIONS FROM CATEGORIES ---

#[test]
fn test_get_possible_annotations_from_category_ids() {
    let coco = get_shared_coco();

    assert!(coco.get_possible_annotations_from_category_ids(&[]).is_none());
    assert!(coco.get_possible_annotations_from_category_ids(&[0]).is_none());

    let res_single = coco.get_possible_annotations_from_category_ids(&[92]);
    assert_eq!(
        res_single.as_ref().map(|v| v.len()),
        Some(141),
        "Category 92 should yield exactly 141 annotations"
    );

    let res_multi = coco.get_possible_annotations_from_category_ids(&[92, 0, 93]);
    assert_eq!(
        res_multi.as_ref().map(|v| v.len()),
        Some(269),
        "Categories [92, 0, 93] should yield exactly 269 annotations"
    );
}

// --- ANNOTATIONS FROM FILTERS ---

#[test]
fn test_get_possible_annotations_from_filters_structural_nones() {
    let coco = get_shared_coco();

    assert!(coco.get_possible_annotations_from_filters(None, None).is_none());
    assert!(coco.get_possible_annotations_from_filters(None, Some(&[])).is_none());
    assert!(coco.get_possible_annotations_from_filters(Some(&[]), None).is_none());
    assert!(coco.get_possible_annotations_from_filters(Some(&[]), Some(&[])).is_none());
}

#[test]
fn test_get_possible_annotations_from_filters_categories() {
    let coco = get_shared_coco();

    assert!(coco.get_possible_annotations_from_filters(None, Some(&[0])).is_none());
    assert!(coco.get_possible_annotations_from_filters(Some(&[0]), Some(&[0])).is_none());

    let filter_cat_len_1 = coco.get_possible_annotations_from_filters(None, Some(&[0, 92]));
    assert_eq!(filter_cat_len_1.as_ref().map(|v| v.len()), Some(141));

    let filter_cat_len_2 = coco.get_possible_annotations_from_filters(None, Some(&[0, 92, 93]));
    assert_eq!(filter_cat_len_2.as_ref().map(|v| v.len()), Some(269));
}

#[test]
fn test_get_possible_annotations_from_filters_images() {
    let coco = get_shared_coco();

    assert!(coco.get_possible_annotations_from_filters(Some(&[0]), None).is_none());

    let filter_img_len_1 = coco.get_possible_annotations_from_filters(Some(&[0, 8211]), None);
    assert_eq!(filter_img_len_1.as_ref().map(|v| v.len()), Some(11));

    let filter_img_len_2 = coco.get_possible_annotations_from_filters(Some(&[0, 92, 8211]), None);
    assert_eq!(filter_img_len_2.as_ref().map(|v| v.len()), Some(11));
}

#[test]
fn test_get_possible_annotations_from_filters_mixed() {
    let coco = get_shared_coco();

    let mixed_len =
        coco.get_possible_annotations_from_filters(Some(&[0, 92, 8211]), Some(&[92, 96]));
    assert_eq!(mixed_len.as_ref().map(|v| v.len()), Some(2));

    let mixed_len_with_zero =
        coco.get_possible_annotations_from_filters(Some(&[0, 92, 8211]), Some(&[92, 96, 0]));
    assert_eq!(mixed_len_with_zero.as_ref().map(|v| v.len()), Some(2));

    assert!(coco.get_possible_annotations_from_filters(Some(&[0, 92, 8211]), Some(&[0])).is_none());
}

// --- IMAGES FROM FILTERS ---

#[test]
fn test_get_possible_images_from_filters_structural_nones() {
    let coco = get_shared_coco();

    assert!(coco.get_possible_images_from_filters(None, None).is_none());
    assert!(coco.get_possible_images_from_filters(None, Some(&[])).is_none());
    assert!(coco.get_possible_images_from_filters(Some(&[]), None).is_none());
    assert!(coco.get_possible_images_from_filters(Some(&[]), Some(&[])).is_none());
}

#[test]
fn test_get_possible_images_from_filters_categories() {
    let coco = get_shared_coco();

    assert!(coco.get_possible_images_from_filters(None, Some(&[0])).is_none());
    assert!(coco.get_possible_images_from_filters(Some(&[0]), Some(&[0])).is_none());

    let filter_cat_len_1 = coco.get_possible_images_from_filters(None, Some(&[0, 92]));
    assert_eq!(filter_cat_len_1.as_ref().map(|v| v.len()), Some(141));

    let filter_cat_len_2 = coco.get_possible_images_from_filters(None, Some(&[0, 92, 93]));
    assert_eq!(filter_cat_len_2.as_ref().map(|v| v.len()), Some(269));
}

#[test]
fn test_get_possible_images_from_filters_images() {
    let coco = get_shared_coco();

    assert!(coco.get_possible_images_from_filters(Some(&[0]), None).is_none());

    let filter_img_len_1 = coco.get_possible_images_from_filters(Some(&[0, 8211]), None);
    assert_eq!(filter_img_len_1.as_ref().map(|v| v.len()), Some(1));

    let filter_img_len_2 = coco.get_possible_images_from_filters(Some(&[0, 92, 8211]), None);
    assert_eq!(filter_img_len_2.as_ref().map(|v| v.len()), Some(1));
}

#[test]
fn test_get_possible_images_from_filters_mixed() {
    let coco = get_shared_coco();

    let mixed_len = coco.get_possible_images_from_filters(Some(&[0, 92, 8211]), Some(&[92, 96]));
    assert_eq!(mixed_len.as_ref().map(|v| v.len()), Some(1));

    let mixed_len_with_zero =
        coco.get_possible_images_from_filters(Some(&[0, 92, 8211]), Some(&[92, 96, 0]));
    assert_eq!(mixed_len_with_zero.as_ref().map(|v| v.len()), Some(1));

    assert!(coco.get_possible_images_from_filters(Some(&[0, 92, 8211]), Some(&[0])).is_none());
}
