//! The cache over whole frames, with real gradients.

use gradient_cache::cache::GradientRampCache;
use gradient_cache::ramp::BYTES_PER_TEXEL;
use vello_common::color::{ColorSpaceTag, DynamicColor, HueDirection};
use vello_common::encode::{EncodeExt, EncodedGradient, EncodedPaint};
use vello_common::fearless_simd::Level;
use vello_common::kurbo::{Affine, Point};
use vello_common::peniko::{Color, ColorStop, ColorStops, Gradient, LinearGradientPosition};

/// The texels of the gradient's ramp, generated at the baseline SIMD level.
fn ramp_texels(gradient: &EncodedGradient) -> &[[u8; 4]] {
    let simd = Level::baseline()
        .as_sse2()
        .expect("SSE2 is part of the baseline of this target");
    gradient.u8_lut(simd).lut()
}

fn lookup_ramp(cache: &mut GradientRampCache, gradient: &EncodedGradient) -> (u32, u32) {
    cache.get_or_create_ramp(&gradient.cache_key, || ramp_texels(gradient))
}

fn insert_entry(cache: &mut GradientRampCache, gradient: Gradient) -> (u32, u32) {
    let encoded_gradient = create_encoded_gradient(gradient);
    lookup_ramp(cache, &encoded_gradient)
}

fn create_encoded_gradient(gradient: Gradient) -> EncodedGradient {
    let mut encoded_paints = vec![];
    gradient.encode_into(&mut encoded_paints, Affine::IDENTITY, None);
    match encoded_paints.into_iter().last().unwrap() {
        EncodedPaint::Gradient(encoded_gradient) => encoded_gradient,
        _ => panic!("Expected a gradient paint"),
    }
}

fn create_gradient(offset: f32) -> Gradient {
    Gradient {
        kind: LinearGradientPosition {
            start: Point::new(0.0, 0.0),
            end: Point::new(100.0, 0.0),
        }
        .into(),
        stops: ColorStops(
            vec![
                ColorStop {
                    offset: 0.0,
                    color: DynamicColor::from_alpha_color(Color::from_rgb8(255, 0, 0)),
                },
                ColorStop {
                    offset,
                    color: DynamicColor::from_alpha_color(Color::from_rgb8(0, 255, 0)),
                },
                ColorStop {
                    offset: 1.0,
                    color: DynamicColor::from_alpha_color(Color::from_rgb8(0, 0, 255)),
                },
            ]
            .into(),
        ),
        interpolation_cs: ColorSpaceTag::Srgb,
        hue_direction: HueDirection::Shorter,
        ..Default::default()
    }
}

#[test]
fn test_empty() {
    let cache = GradientRampCache::new();
    assert!(cache.is_empty());
    assert!(!cache.has_changed());
}

#[test]
fn test_insert_creates_lut_data() {
    let mut cache = GradientRampCache::new();
    let (start, width) = insert_entry(&mut cache, create_gradient(0.5));

    assert_eq!(start, 0);
    assert!(width > 0);
    assert!(!cache.is_empty());
    assert!(cache.has_changed());
    assert_eq!(cache.luts_size(), (width * BYTES_PER_TEXEL) as usize);
}

#[test]
fn test_cache_hit_no_buffer_growth() {
    let mut cache = GradientRampCache::new();
    let (start1, width1) = insert_entry(&mut cache, create_gradient(0.5));
    let size_after_first = cache.luts_size();

    cache.mark_synced();
    cache.maintain();
    let (start2, width2) = insert_entry(&mut cache, create_gradient(0.5));

    assert_eq!(start1, start2);
    assert_eq!(width1, width2);
    assert_eq!(cache.luts_size(), size_after_first);
    assert!(!cache.has_changed());
}

#[test]
fn test_multiple_inserts_are_contiguous() {
    let mut cache = GradientRampCache::new();

    let (start1, width1) = insert_entry(&mut cache, create_gradient(0.1));
    let (start2, width2) = insert_entry(&mut cache, create_gradient(0.2));
    let (start3, _width3) = insert_entry(&mut cache, create_gradient(0.3));

    assert_eq!(start1, 0);
    assert_eq!(start2, start1 + width1);
    assert_eq!(start3, start2 + width2);
}

#[test]
fn test_static_scene_no_reupload() {
    let mut cache = GradientRampCache::new();

    // Frame 1: insert gradients, then maintain.
    insert_entry(&mut cache, create_gradient(0.1));
    insert_entry(&mut cache, create_gradient(0.2));
    assert!(cache.has_changed());
    cache.mark_synced();
    cache.maintain();

    // Frame 2: same gradients, all cache hits.
    insert_entry(&mut cache, create_gradient(0.1));
    insert_entry(&mut cache, create_gradient(0.2));
    cache.maintain();
    assert!(
        !cache.has_changed(),
        "Static scene should not trigger re-upload"
    );
}

#[test]
fn test_stale_entries_evicted() {
    let mut cache = GradientRampCache::new();

    // Frame 1: insert A and B.
    insert_entry(&mut cache, create_gradient(0.1));
    insert_entry(&mut cache, create_gradient(0.2));
    let size_with_two = cache.luts_size();
    cache.mark_synced();
    cache.maintain();

    // Frame 2: only use A. B becomes stale.
    insert_entry(&mut cache, create_gradient(0.1));
    cache.maintain();

    assert!(cache.has_changed(), "Eviction should trigger re-upload");
    assert!(
        cache.luts_size() < size_with_two,
        "Buffer should shrink after evicting stale entry"
    );
}

#[test]
fn test_dynamic_gradients_dont_accumulate() {
    let mut cache = GradientRampCache::new();

    // Frame 1: gradient A.
    let (_, width_a) = insert_entry(&mut cache, create_gradient(0.1));
    let size_a = (width_a * BYTES_PER_TEXEL) as usize;
    cache.mark_synced();
    cache.maintain();

    // Frame 2: completely different gradient B. A should be evicted.
    let (_, width_b) = insert_entry(&mut cache, create_gradient(0.2));
    let size_b = (width_b * BYTES_PER_TEXEL) as usize;
    cache.maintain();

    // Buffer should contain only B, not A+B.
    assert_eq!(cache.luts_size(), size_b);
    assert!(
        cache.luts_size() <= size_a + size_b,
        "Buffer should not contain both A and B"
    );
}

#[test]
fn test_compaction_offset_correctness() {
    let mut cache = GradientRampCache::new();

    // Frame 1: insert A, B, C contiguously.
    let (start_a, width_a) = insert_entry(&mut cache, create_gradient(0.1));
    let (start_b, _width_b) = insert_entry(&mut cache, create_gradient(0.2));
    let (_start_c, width_c) = insert_entry(&mut cache, create_gradient(0.3));

    assert_eq!(start_a, 0);
    assert!(start_b > start_a);
    cache.mark_synced();
    cache.maintain();

    // Frame 2: use A and C but not B. B should be evicted.
    let encoded_a = create_encoded_gradient(create_gradient(0.1));
    let encoded_c = create_encoded_gradient(create_gradient(0.3));
    lookup_ramp(&mut cache, &encoded_a);
    lookup_ramp(&mut cache, &encoded_c);
    cache.maintain();

    // Re-read offsets after compaction (maintain updated lut_start in-place).
    let (new_start_a, new_width_a) = lookup_ramp(&mut cache, &encoded_a);
    let (new_start_c, new_width_c) = lookup_ramp(&mut cache, &encoded_c);

    // Widths should be unchanged.
    assert_eq!(new_width_a, width_a);
    assert_eq!(new_width_c, width_c);

    // After compaction, entries should be contiguous starting from 0.
    let mut offsets = [(new_start_a, new_width_a), (new_start_c, new_width_c)];
    offsets.sort_by_key(|(start, _)| *start);

    assert_eq!(offsets[0].0, 0, "First entry should start at 0 after compaction");
    assert_eq!(
        offsets[1].0,
        offsets[0].0 + offsets[0].1,
        "Entries should be contiguous after compaction"
    );

    // Total buffer size should equal sum of surviving widths.
    let total_width = new_width_a + new_width_c;
    assert_eq!(cache.luts_size(), (total_width * BYTES_PER_TEXEL) as usize);
}

#[test]
fn test_take_and_restore_luts() {
    let mut cache = GradientRampCache::new();

    insert_entry(&mut cache, create_gradient(0.1));
    insert_entry(&mut cache, create_gradient(0.2));
    let original_size = cache.luts_size();

    let luts = cache.take_luts();
    assert_eq!(luts.len(), original_size);
    assert!(cache.is_empty());

    cache.restore_luts(luts);
    assert_eq!(cache.luts_size(), original_size);
    assert!(!cache.is_empty());
}

#[test]
fn insert_at_epoch_zero_starts_at_zero() {
    let mut cache = GradientRampCache::new();
    let a = create_encoded_gradient(create_gradient(0.1));
    let width_a = ramp_texels(&a).len() as u32;
    assert!(width_a > 0);

    assert_eq!(cache.epoch(), 0);
    assert_eq!(lookup_ramp(&mut cache, &a), (0, width_a));
    assert!(cache.has_changed());
    assert_eq!(cache.luts_size(), width_a as usize * 4);
}

#[test]
fn used_ramp_survives_maintenance_unchanged() {
    let mut cache = GradientRampCache::new();
    let a = create_encoded_gradient(create_gradient(0.1));
    let first = lookup_ramp(&mut cache, &a);
    let size = cache.luts_size();
    let bytes = cache.take_luts();
    let before = bytes.clone();
    cache.restore_luts(bytes);

    cache.mark_synced();
    cache.maintain();

    assert_eq!(cache.epoch(), 1);
    assert!(!cache.has_changed());
    assert_eq!(cache.luts_size(), size);
    assert_eq!(cache.take_luts(), before);
    cache.restore_luts(before);
    assert_eq!(lookup_ramp(&mut cache, &a), first);
    assert!(!cache.has_changed());
}

#[test]
fn two_used_ramps_both_survive() {
    let mut cache = GradientRampCache::new();
    let a = create_encoded_gradient(create_gradient(0.1));
    let b = create_encoded_gradient(create_gradient(0.2));
    let width_a = ramp_texels(&a).len() as u32;
    let width_b = ramp_texels(&b).len() as u32;

    assert_eq!(lookup_ramp(&mut cache, &a), (0, width_a));
    assert_eq!(lookup_ramp(&mut cache, &b), (width_a, width_b));
    let size = cache.luts_size();
    cache.mark_synced();
    cache.maintain();

    assert_eq!(cache.luts_size(), size);
    assert_eq!(lookup_ramp(&mut cache, &a), (0, width_a));
    assert_eq!(lookup_ramp(&mut cache, &b), (width_a, width_b));
    assert!(!cache.has_changed());
}

#[test]
fn unused_ramp_is_evicted_and_survivor_moves_to_front() {
    let mut cache = GradientRampCache::new();
    let a = create_encoded_gradient(create_gradient(0.1));
    let b = create_encoded_gradient(create_gradient(0.2));
    let width_a = ramp_texels(&a).len() as u32;
    let width_b = ramp_texels(&b).len() as u32;

    // Frame 1: B lies first, A behind it.
    assert_eq!(lookup_ramp(&mut cache, &b), (0, width_b));
    assert_eq!(lookup_ramp(&mut cache, &a), (width_b, width_a));
    cache.mark_synced();
    cache.maintain();

    // Frame 2: only A is asked for.
    assert_eq!(lookup_ramp(&mut cache, &a), (width_b, width_a));
    assert!(!cache.has_changed());
    cache.maintain();

    assert!(cache.has_changed());
    assert_eq!(cache.luts_size(), width_a as usize * 4);
    assert_eq!(cache.epoch(), 2);
    assert_eq!(cache.lookup(&b.cache_key), None);
    assert_eq!(cache.lookup(&a.cache_key), Some((0, width_a)));
}

#[test]
fn compaction_keeps_the_bytes_of_each_survivor() {
    let mut cache = GradientRampCache::new();
    let a = create_encoded_gradient(create_gradient(0.1));
    let b = create_encoded_gradient(create_gradient(0.2));
    let c = create_encoded_gradient(create_gradient(0.3));
    lookup_ramp(&mut cache, &a);
    lookup_ramp(&mut cache, &b);
    lookup_ramp(&mut cache, &c);
    cache.maintain();

    lookup_ramp(&mut cache, &a);
    lookup_ramp(&mut cache, &c);
    cache.maintain();

    let (start_a, width_a) = cache.lookup(&a.cache_key).unwrap();
    let (start_c, width_c) = cache.lookup(&c.cache_key).unwrap();
    let luts = cache.take_luts();
    assert_eq!(luts.len(), (width_a + width_c) as usize * 4);
    let bytes_of = |start: u32, width: u32| {
        luts[start as usize * 4..(start + width) as usize * 4].to_vec()
    };
    assert_eq!(bytes_of(start_a, width_a), ramp_texels(&a).concat());
    assert_eq!(bytes_of(start_c, width_c), ramp_texels(&c).concat());
    assert_ne!(ramp_texels(&a).concat(), ramp_texels(&c).concat());
}

#[test]
fn equal_gradients_share_one_ramp() {
    let mut cache = GradientRampCache::new();
    let first = insert_entry(&mut cache, create_gradient(0.25));
    let size = cache.luts_size();
    cache.mark_synced();

    // A second encoding of the same gradient is the same key.
    let second = insert_entry(&mut cache, create_gradient(0.25));
    assert_eq!(first, second);
    assert_eq!(cache.luts_size(), size);
    assert!(!cache.has_changed());
}
