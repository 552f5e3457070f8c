use aether::audio::encode_wav;
use aether::controls::speed_label;
use aether::text::{push_decimal, push_padded, trim};
use aether::world::{starter_food_kind, EdgeEffect, FoodKind};

#[test]
fn food_kinds_cycle() {
    assert_eq!(FoodKind::from_index(0), FoodKind::Green);
    assert_eq!(FoodKind::from_index(4), FoodKind::Amber);
    assert_eq!(FoodKind::from_index(5), FoodKind::Toxic);
    assert_eq!(FoodKind::Toxic.next(), FoodKind::Green);
    assert_eq!(FoodKind::Green.next().next().next(), FoodKind::Green);
    for k in [FoodKind::Green, FoodKind::Amber, FoodKind::Toxic] {
        assert_eq!(FoodKind::from_index(k.index()), k);
    }
    assert_eq!(FoodKind::Amber.label(), "zlaté");
    assert_eq!(FoodKind::Toxic.short(), "Jed");
}

#[test]
fn starter_food_is_mostly_green() {
    let kinds: Vec<FoodKind> = (0..8).map(starter_food_kind).collect();
    assert_eq!(kinds.iter().filter(|k| **k == FoodKind::Green).count(), 5);
    assert_eq!(kinds.iter().filter(|k| **k == FoodKind::Amber).count(), 2);
    assert_eq!(kinds[7], FoodKind::Toxic);
    assert_eq!(starter_food_kind(13), FoodKind::Amber);
}

#[test]
fn edge_effects_cycle() {
    let mut e = EdgeEffect::NoEffect;
    let mut seen = Vec::new();
    for _ in 0..5 {
        seen.push(e.label());
        e = e.next();
    }
    assert_eq!(e, EdgeEffect::NoEffect);
    assert_eq!(seen, vec!["žádný", "dopamin", "poškození", "léčení", "energie"]);
}

#[test]
fn wav_header_and_samples() {
    let wav = encode_wav(&[0, -1, 32767]);
    assert_eq!(wav.len(), 44 + 6);
    assert_eq!(&wav[0..4], b"RIFF");
    assert_eq!(&wav[4..8], &(36u32 + 6).to_le_bytes());
    assert_eq!(&wav[8..16], b"WAVEfmt ");
    assert_eq!(&wav[16..20], &16u32.to_le_bytes());
    assert_eq!(&wav[24..28], &22050u32.to_le_bytes());
    assert_eq!(&wav[28..32], &44100u32.to_le_bytes());
    assert_eq!(&wav[36..40], b"data");
    assert_eq!(&wav[40..44], &6u32.to_le_bytes());
    assert_eq!(&wav[44..], &[0u8, 0, 0xff, 0xff, 0xff, 0x7f]);
}

#[test]
fn speed_labels() {
    assert_eq!(speed_label(1), "1×");
    assert_eq!(speed_label(50), "50×");
    assert_eq!(speed_label(3), "1×");
}

#[test]
fn text_helpers() {
    let mut s = String::new();
    push_padded(&mut s, 7, 4);
    s.push('|');
    push_decimal(&mut s, 1234567890123);
    s.push('|');
    push_padded(&mut s, 12345, 2);
    assert_eq!(s, "0007|1234567890123|12345");
    assert_eq!(trim("\u{3000} a b \n"), "a b");
    assert_eq!(trim("   "), "");
}
