use rollback_duel::actions::{direction, has_fired};
use rollback_duel::codec::{input, CodecError, Controls, Packet, INPUT_DOWN, INPUT_FIRE, INPUT_LEFT, INPUT_RIGHT, INPUT_UP};

fn controls(up: bool, down: bool, left: bool, right: bool, fire: bool, aim_x: i32, aim_y: i32) -> Controls {
    Controls { up, down, left, right, fire, aim_x, aim_y }
}

#[test]
fn input_sets_flags_and_aim_when_firing() {
    let p = input(controls(true, false, false, true, true, 5000, -7));
    assert_eq!(p, Packet { aim_x: 5000, aim_y: -7, input: INPUT_UP | INPUT_RIGHT | INPUT_FIRE });
}

#[test]
fn input_drops_aim_without_fire() {
    let p = input(controls(false, true, true, false, false, 123, 456));
    assert_eq!(p, Packet { aim_x: 0, aim_y: 0, input: INPUT_DOWN | INPUT_LEFT });
}

#[test]
fn packet_bytes_layout() {
    let p = Packet { aim_x: 1, aim_y: -1, input: 17 };
    assert_eq!(p.to_bytes(), vec![1, 0, 0, 0, 255, 255, 255, 255, 17, 0, 0, 0]);
}

#[test]
fn every_control_state_round_trips() {
    for bits in 0u32..32 {
        let fire = bits & 16 != 0;
        let (ax, ay) = if fire { (-2_000_000_000, 1234) } else { (0, 0) };
        let c = controls(bits & 1 != 0, bits & 2 != 0, bits & 4 != 0, bits & 8 != 0, fire, ax, ay);
        let p = input(c);
        let back = Packet::from_bytes(&p.to_bytes()).unwrap();
        assert_eq!(back, p);
        assert_eq!(back.input & INPUT_UP != 0, c.up);
        assert_eq!(back.input & INPUT_DOWN != 0, c.down);
        assert_eq!(back.input & INPUT_LEFT != 0, c.left);
        assert_eq!(back.input & INPUT_RIGHT != 0, c.right);
        assert_eq!(has_fired(back.input), c.fire);
        assert_eq!((back.aim_x, back.aim_y), (c.aim_x, c.aim_y));
    }
}

#[test]
fn truncated_bytes_are_rejected() {
    assert_eq!(Packet::from_bytes(&vec![0u8; 11]), Err(CodecError::WrongLength));
    assert_eq!(Packet::from_bytes(&vec![0u8; 13]), Err(CodecError::WrongLength));
    assert_eq!(Packet::from_bytes(&Vec::new()), Err(CodecError::WrongLength));
}

#[test]
fn unknown_flag_bits_are_rejected() {
    let b = vec![0, 0, 0, 0, 0, 0, 0, 0, 32, 0, 0, 0];
    assert_eq!(Packet::from_bytes(&b), Err(CodecError::UnknownFlags));
}

#[test]
fn direction_of_single_flags() {
    assert_eq!(direction(INPUT_UP), (0, 1));
    assert_eq!(direction(INPUT_DOWN), (0, -1));
    assert_eq!(direction(INPUT_LEFT), (-1, 0));
    assert_eq!(direction(INPUT_RIGHT), (1, 0));
    assert_eq!(direction(INPUT_LEFT | INPUT_UP), (-1, 1));
    assert_eq!(direction(0), (0, 0));
}

#[test]
fn opposing_flags_cancel() {
    assert_eq!(direction(INPUT_UP | INPUT_DOWN), (0, 0));
    assert_eq!(direction(INPUT_LEFT | INPUT_RIGHT), (0, 0));
    assert_eq!(direction(INPUT_UP | INPUT_DOWN | INPUT_RIGHT), (1, 0));
    assert_eq!(direction(INPUT_UP | INPUT_DOWN | INPUT_LEFT | INPUT_RIGHT | INPUT_FIRE), (0, 0));
}

#[test]
fn fire_flag_detected() {
    assert!(has_fired(INPUT_FIRE));
    assert!(has_fired(INPUT_FIRE | INPUT_UP));
    assert!(!has_fired(INPUT_UP | INPUT_DOWN | INPUT_LEFT | INPUT_RIGHT));
}
