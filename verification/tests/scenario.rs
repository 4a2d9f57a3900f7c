use eevee::eval::GameXOR;
use eevee::playground::xor::{xor_io, XorScenario};

#[test]
fn test_game_xor_new() {
    let _game: GameXOR = GameXOR::new();
}

#[test]
fn test_xor_scenario_default_and_io() {
    let _s: XorScenario<u8> = XorScenario::default();
    assert_eq!(xor_io(), (2, 1));
}
