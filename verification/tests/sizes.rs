use liteparse::{body_size_key, heading_levels, FontSample};

/// A line's sample: size key in hundredths of a point and the counts of
/// its text.
fn sample(text: &str, size: u32) -> FontSample {
    let chars = text.chars().filter(|c| !c.is_whitespace()).count();
    let alpha = text.chars().filter(|c| c.is_alphabetic()).count();
    FontSample { key: size * 100, chars, alpha }
}

/// A body-size sample weighs all its characters, at least one.
fn body_sample(text: &str, size: u32) -> FontSample {
    FontSample { key: size * 100, chars: text.chars().count().max(1), alpha: 0 }
}

#[test]
fn body_size_picks_most_common() {
    let samples = vec![
        body_sample("Title", 18),
        body_sample("body line one", 10),
        body_sample("body line two", 10),
        body_sample("body line three", 10),
    ];
    assert_eq!(body_size_key(&samples), Some(1000));
}

#[test]
fn body_size_of_nothing() {
    assert_eq!(body_size_key(&[]), None);
}

#[test]
fn body_size_weighs_characters_not_lines() {
    let samples = vec![
        body_sample("a", 10),
        body_sample("b", 10),
        body_sample("a much longer line of text", 12),
    ];
    assert_eq!(body_size_key(&samples), Some(1200));
}

#[test]
fn heading_map_descending_levels() {
    // Only the lines larger than the body size are sampled.
    let samples = vec![
        sample("The largest heading on the page", 24),
        sample("A smaller heading right below it", 18),
    ];
    let map = heading_levels(&samples);
    assert_eq!(map.len(), 2);
    assert_eq!(map[0].1, 1);
    assert_eq!(map[1].1, 2);
    assert!(map[0].0 > map[1].0);
    assert_eq!(map, vec![(2400, 1), (1800, 2)]);
}

#[test]
fn heading_map_filters_noise() {
    let samples = vec![
        // Too few characters in all.
        sample("A-mem", 30),
        sample("Base", 30),
        // Mostly digits.
        sample("12.5 13.7 14.9 15.1 16.3 17.8 18.0", 16),
        // Qualifies across two lines.
        sample("Results and more", 14),
        sample("Discussion here", 14),
    ];
    assert_eq!(heading_levels(&samples), vec![(1400, 1)]);
}

#[test]
fn heading_map_keeps_at_most_six_levels() {
    let text = "A heading long enough to count";
    let samples: Vec<FontSample> = (11..=18).map(|s| sample(text, s)).collect();
    let map = heading_levels(&samples);
    assert_eq!(
        map,
        vec![(1800, 1), (1700, 2), (1600, 3), (1500, 4), (1400, 5), (1300, 6)]
    );
}

#[test]
fn raising_the_body_size_drops_levels_from_the_end() {
    let text = "A heading long enough to count";
    let samples: Vec<FontSample> = [24, 20, 18, 14, 12].iter().map(|&s| sample(text, s)).collect();
    let full = heading_levels(&samples);
    for cut in [0u32, 1250, 1400, 1900, 2400] {
        let kept: Vec<FontSample> = samples.iter().copied().filter(|x| x.key > cut).collect();
        let fewer = heading_levels(&kept);
        assert!(fewer.len() <= full.len());
        assert_eq!(fewer[..], full[..fewer.len()]);
    }
}
