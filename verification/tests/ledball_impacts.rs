use ustripe::ledball_impacts::{impact_color, Rain, MAX_IMPACTS};

#[test]
fn drops_only_on_interval() {
    let mut rain: Rain<u32> = Rain::new();
    assert!(!Rain::<u32>::wants_impact(49));
    rain.tick(49, Some((1, 0)));
    assert!(rain.impacts().is_empty());
    assert!(Rain::<u32>::wants_impact(50));
    rain.tick(50, Some((7, 2)));
    assert_eq!(rain.impacts().len(), 1);
    assert_eq!(rain.impacts()[0].start, 50);
    assert_eq!(rain.impacts()[0].pos, 7);
}

#[test]
fn keeps_last_hundred() {
    let mut rain: Rain<u32> = Rain::new();
    for k in 0..150u64 {
        rain.tick(k * 50, Some((k as u32, (k % 6) as u8)));
    }
    assert_eq!(rain.impacts().len(), MAX_IMPACTS);
    assert_eq!(rain.impacts()[0].start, 50 * 50);
    assert_eq!(rain.impacts()[99].start, 149 * 50);
}

#[test]
fn latest_arrived_wave_wins() {
    let mut rain: Rain<u32> = Rain::new();
    rain.tick(0, Some((0, 0)));
    rain.tick(50, Some((1, 1)));
    rain.tick(100, Some((2, 2)));
    // Waves arrive at 10, 70 and 300.
    let arrivals = [10u64, 70, 300];
    assert_eq!(rain.nearest_at(&arrivals, 5), None);
    assert_eq!(rain.get_color_at(&arrivals, 5), [0, 0, 0]);
    assert_eq!(rain.nearest_at(&arrivals, 20), Some(0));
    assert_eq!(rain.nearest_at(&arrivals, 100), Some(1));
    assert_eq!(rain.get_color_at(&arrivals, 100), [0, 255, 0]);
    assert_eq!(rain.get_color_at(&arrivals, 300), [0, 0, 255]);
}

#[test]
fn colors() {
    assert_eq!(impact_color(0), [255, 0, 0]);
    assert_eq!(impact_color(3), [255, 255, 0]);
    assert_eq!(impact_color(5), [0, 255, 255]);
}
