use pico_th_collector::csv::tenths_to_text;

#[test]
fn sensor_values_match_float_display() {
    for whole in 0..=255u8 {
        for tenth in 0..=255u8 {
            let expected = ((whole as f32) + (tenth as f32) / 10.0).to_string();
            assert_eq!(tenths_to_text(whole, tenth), expected, "whole {} tenth {}", whole, tenth);
        }
    }
}
