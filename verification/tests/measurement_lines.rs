use brc::measurements::Measurements;
use brc::output::{mean, write_n, write_record};
use brc::parse::fast_hash;
use brc::record::Record;

/// Rounds `value` to `decimal_places` decimals.
fn drop_decimals_after(value: f32, decimal_places: u32) -> f32 {
    let ten_power = 10_u32.pow(decimal_places) as f32;
    (value * ten_power).round() / ten_power
}

/// The record of one value given in degrees, its tenths rounded down.
fn init_from_tuple<'a>((name, value): (&'a str, f32)) -> Record<'a> {
    let tenths = (value * 10.0).floor();
    Record {
        name: name.as_bytes(),
        min: tenths as i16,
        max: tenths as i16,
        sum: tenths as i64,
        count: 1,
    }
}

#[test]
fn test_measurements_10() {
    let input = "Karauli;-95.6
Caucaguita;-74.7
Medina;-96.9
Owosso;-89.3
NorrkÃ¶ping;27.4
Rouyn-Noranda;-77.3
Karauli;6.8
Jincheng;0.7
Karachayevsk;-36.3
Miryang;-8.9";

    let _expected = Measurements::new();
    let mut result = Measurements::new();
    let mut start = 0;
    while start < input.len() {
        start = fast_hash(input.as_bytes(), start, &mut result);
    }
    let expected_karauli = Record {
        name: "Karauli".as_bytes(),
        min: -956,
        max: 68,
        sum: -956 + 68,
        count: 2,
    };
    assert_eq!(
        expected_karauli,
        *result.0.iter().find(|r| r.name == "Karauli".as_bytes()).unwrap()
    );
    result.0.iter().for_each(|r| println!("{:?}", r));
}

#[test]
fn test_fast_hash() {
    let cities: [(&str, f32); 5] = [
        ("city1", 1.2),
        ("mycity2", -8.2),
        ("ourcity1", 11.7),
        ("ourcity3", -89.2),
        ("city1", -1.2),
    ];

    let s = cities
        .iter()
        .fold(String::new(), |acc, (city_name, value)| {
            acc + &format!("{city_name};{value}") + "\n"
        });
    let source = s.as_bytes();

    let mut start = 0;
    let mut m = Measurements::new();

    for (city_idx, curr_city) in cities.into_iter().take(cities.len() - 1).enumerate() {
        start = fast_hash(source, start, &mut m);
        assert_eq!(
            start,
            s.lines().take(city_idx + 1).map(|l| l.len()).sum::<usize>() + city_idx + 1
        );
        assert_eq!(
            &init_from_tuple(curr_city),
            m.0.iter().find(|r| r.name == curr_city.0.as_bytes()).unwrap()
        );
    }

    let start = fast_hash(source, start, &mut m);
    assert_eq!(start, source.len());
    let mut repeated_record = init_from_tuple((cities[0].0, cities[0].1));
    repeated_record.min = (cities[cities.len() - 1].1 * 10.0).floor() as i16;
    repeated_record.sum += (cities[cities.len() - 1].1 * 10.0).floor() as i64;
    repeated_record.count += 1;

    assert_eq!(
        repeated_record,
        *m.0.iter().find(|r| r.name == cities[0].0.as_bytes()).unwrap()
    );
}

#[test]
fn write_n_test() {
    let mut buff = vec![];
    let inputs = [-999, 999, 0, 1, 10, 100, -1, -10, -100, -99, 99];

    for i in inputs {
        buff.clear();
        write_n(&mut buff, i);
        let result: f32 = match std::str::from_utf8(&buff) {
            Ok(result) => result.parse().unwrap(),
            Err(_) => {
                unreachable!()
            }
        };
        assert_eq!(drop_decimals_after(result, 1), (i as f32) / 10.0);
    }
}

#[test]
fn write_city_test() {
    let inputs = [(
        Record {
            name: "Porto".as_bytes(),
            max: 912,
            min: -881,
            count: 70,
            sum: 70 * 123,
        },
        format!(
            "Porto=-88.1/91.2/{},",
            drop_decimals_after((mean(70 * 123, 70) as f32) / 10.0, 1)
        ),
    )];

    let mut buff = vec![];
    for (input, expected) in inputs {
        buff.clear();
        write_record(&mut buff, input);
        assert_eq!(expected, std::str::from_utf8(buff.as_slice()).unwrap());
    }
}

#[test]
fn test_mean() {
    #[allow(clippy::identity_op)]
    let mean = mean(999 - 999 + 10 - 15, 4);
    assert_eq!(mean, -1)
}
