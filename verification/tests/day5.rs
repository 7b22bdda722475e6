use advent::day5::{
    calculate_location, convert, parse_almanac, solve_part_1, solve_part_2, to_conversion_map,
    to_ranged_seeds, try_calculate_location, try_solve_part_1, try_solve_part_2, ConversionMap,
    ConvertTo, Fertilizer, Humidity, Light, Location, Seed, Soil, Temperature, Water,
};

const INPUT_TEST: &str = "seeds: 79 14 55 13\n\nseed-to-soil map:\n50 98 2\n52 50 48\n\nsoil-to-fertilizer map:\n0 15 37\n37 52 2\n39 0 15\n\nfertilizer-to-water map:\n49 53 8\n0 11 42\n42 0 7\n57 7 4\n\nwater-to-light map:\n88 18 7\n18 25 70\n\nlight-to-temperature map:\n45 77 23\n81 45 19\n68 64 13\n\ntemperature-to-humidity map:\n0 69 1\n1 0 69\n\nhumidity-to-location map:\n60 56 37\n56 93 4\n";

#[test]
fn day5_it_works() {
    let input = INPUT_TEST;

    let (seeds, conversion_maps) = solve_part_1(input);
    let min_location = calculate_location(&seeds, &conversion_maps);

    assert_eq!(min_location, 35);
}

#[test]
fn it_still_works() {
    let input = INPUT_TEST;

    let (seeds, conversion_maps) = solve_part_2(input);
    let min_location = calculate_location(&seeds, &conversion_maps);
    assert_eq!(min_location, 46);
}

fn map(destination: usize, source: usize, len: usize) -> ConversionMap {
    ConversionMap {
        destination: destination..destination + len,
        source: source..source + len,
    }
}

#[test]
fn seeds_go_through_the_seven_lists() {
    let (seeds, maps) = solve_part_1(INPUT_TEST);
    assert_eq!(seeds, vec![Seed(79), Seed(14), Seed(55), Seed(13)]);
    assert_eq!(maps.len(), 7);
    let soil: Soil = seeds[0].convert_to(&maps[0]);
    assert_eq!(soil, Soil(81));
    let fertilizer: Fertilizer = soil.convert_to(&maps[1]);
    assert_eq!(fertilizer, Fertilizer(81));
    let water: Water = fertilizer.convert_to(&maps[2]);
    assert_eq!(water, Water(81));
    let light: Light = water.convert_to(&maps[3]);
    assert_eq!(light, Light(74));
    let temperature: Temperature = light.convert_to(&maps[4]);
    assert_eq!(temperature, Temperature(78));
    let humidity: Humidity = temperature.convert_to(&maps[5]);
    assert_eq!(humidity, Humidity(78));
    let location: Location = humidity.convert_to(&maps[6]);
    assert_eq!(location, Location(82));
    assert_eq!(calculate_location(&seeds[1..2], &maps), 43);
    assert_eq!(calculate_location(&seeds[2..3], &maps), 86);
    assert_eq!(calculate_location(&seeds[3..], &maps), 35);
}

#[test]
fn first_map_that_holds_the_number_converts_it() {
    let maps = vec![map(50, 98, 2), map(52, 50, 48), map(0, 50, 10)];
    assert_eq!(convert(98, &maps), Some(50));
    assert_eq!(convert(99, &maps), Some(51));
    assert_eq!(convert(100, &maps), Some(100));
    assert_eq!(convert(50, &maps), Some(52));
    assert_eq!(convert(97, &maps), Some(99));
    assert_eq!(convert(49, &maps), Some(49));
    assert_eq!(convert(7, &[]), Some(7));
    let far = vec![ConversionMap {
        destination: usize::MAX - 1..usize::MAX,
        source: 0..10,
    }];
    assert_eq!(convert(1, &far), Some(usize::MAX));
    assert_eq!(convert(2, &far), None);
}

#[test]
fn ranges_of_seeds_are_spread_out() {
    let (seeds, _) = solve_part_2(INPUT_TEST);
    assert_eq!(seeds.len(), 27);
    assert_eq!(seeds[0], Seed(79));
    assert_eq!(seeds[13], Seed(92));
    assert_eq!(seeds[14], Seed(55));
    assert_eq!(seeds[26], Seed(67));
    let line = |s: &str| s.chars().collect::<Vec<_>>();
    let ranged = to_ranged_seeds(&line(" 79 14 55 13")).unwrap();
    assert_eq!(ranged.ranges, vec![79..93, 55..68]);
    assert!(to_ranged_seeds(&line("79 14 55")).is_none());
    assert!(to_ranged_seeds(&line("79 x")).is_none());
    assert!(to_ranged_seeds(&line("18446744073709551615 1")).is_none());
    assert_eq!(to_ranged_seeds(&line("")).unwrap().ranges.len(), 0);
}

#[test]
fn lines_of_maps() {
    let line = |s: &str| s.chars().collect::<Vec<_>>();
    let read = to_conversion_map(&line("  50 98 2 ")).unwrap();
    assert_eq!(read.destination, 50..52);
    assert_eq!(read.source, 98..100);
    assert!(to_conversion_map(&line("50 98")).is_none());
    assert!(to_conversion_map(&line("50 98 x")).is_none());
    assert!(to_conversion_map(&line("50 98 2 x")).is_none());
    assert!(to_conversion_map(&line("50 98 2 7")).is_some());
    assert!(to_conversion_map(&line("18446744073709551615 0 1")).is_none());
}

#[test]
fn texts_that_are_no_almanac_are_refused() {
    assert!(parse_almanac(INPUT_TEST).is_some());
    assert!(try_solve_part_1("seeds: 79 14").is_none());
    assert!(try_solve_part_1(&INPUT_TEST.replace("seeds: 79", "seeds: x")).is_none());
    assert!(try_solve_part_1(&INPUT_TEST.replace("50 98 2", "50 98")).is_none());
    assert!(try_solve_part_1(&INPUT_TEST.replace("seeds:", "seeds")).is_none());
    assert!(try_solve_part_2(&INPUT_TEST.replace("seeds: 79", "seeds: 1 79")).is_none());
    let (seeds, maps) = solve_part_1(INPUT_TEST);
    assert_eq!(try_calculate_location(&[], &maps), None);
    assert_eq!(try_calculate_location(&seeds, &maps), Some(35));
}
