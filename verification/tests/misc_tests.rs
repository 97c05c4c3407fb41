use lib::revolution::RevolutionFrame;
use lib::spatial::Vec3;
use lib::compat::CompatWork;
use lib::image_curve::ImageCurveTier;
use lib::projection::{ring_slot, RING_EXPONENTS, RING_INDICES, RING_SIDES};

#[test]
fn compat_work_identity() {
    assert!(CompatWork::default().is_identity());
    let elevated = CompatWork { elevated_by: 1, knots_inserted: 0, domain_remapped: false };
    assert!(!elevated.is_identity());
    let inserted = CompatWork { elevated_by: 0, knots_inserted: 2, domain_remapped: false };
    assert!(!inserted.is_identity());
    let remapped = CompatWork { elevated_by: 0, knots_inserted: 0, domain_remapped: true };
    assert!(!remapped.is_identity());
}

#[test]
fn image_curve_tiers_are_distinct() {
    assert_ne!(ImageCurveTier::Affine, ImageCurveTier::Iso);
    assert_ne!(ImageCurveTier::Iso, ImageCurveTier::Approximated);
    assert_eq!(ImageCurveTier::Affine, ImageCurveTier::Affine);
}

#[test]
fn ring_slot_exact_values() {
    assert_eq!(ring_slot(0, 0, 0), 0);
    assert_eq!(ring_slot(0, 0, 32), 32);
    assert_eq!(ring_slot(0, 1, 0), 33);
    assert_eq!(ring_slot(1, 0, 0), 22 * 33);
    assert_eq!(ring_slot(3, 21, 32), 4 * 22 * 33 - 1);
}

#[test]
fn ring_slots_are_distinct_and_in_range() {
    let mut seen = vec![false; RING_SIDES * RING_EXPONENTS * RING_INDICES];
    for side in 0..RING_SIDES {
        for exponent in 0..RING_EXPONENTS {
            for index in 0..RING_INDICES {
                let slot = ring_slot(side, exponent, index);
                assert!(slot < seen.len());
                assert!(!seen[slot]);
                seen[slot] = true;
            }
        }
    }
    assert!(seen.iter().all(|s| *s));
}

#[test]
fn revolution_frame_holds_its_axes() {
    let v = |x: f64, y: f64, z: f64| Vec3 { x: x.to_bits(), y: y.to_bits(), z: z.to_bits() };
    let frame = RevolutionFrame {
        origin: v(0.0, 0.0, 1.0),
        axis: v(0.0, 0.0, 1.0),
        x_axis: v(1.0, 0.0, 0.0),
        y_axis: v(0.0, 1.0, 0.0),
    };
    let copy = frame;
    assert_eq!(copy.axis, frame.axis);
    assert_eq!(f64::from_bits(copy.origin.z), 1.0);
}
