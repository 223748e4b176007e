use exhume::hash::ChunkHasher;
use exhume::params::RunParams;
use exhume::region::{Region, RegionMap, RegionStatus};
use exhume::state::{
    copy_numbers, copy_texts, count_bad, manifest_of, repair_list, verify_carry, Hashes, Meta,
    Progress, StateFile, VerifyState,
};
use exhume::time::Timestamp;

fn sample_params() -> RunParams {
    RunParams {
        source: "/dev/sdb".to_string(),
        target: "grave.img".to_string(),
        sector_size: 512,
        transfer_size: 1 << 20,
        skip: 0,
        seek: 0,
        length: 0,
        skip_unchanged: false,
        skip_zeros: false,
    }
}

fn now() -> Timestamp {
    Timestamp::new(1_781_769_600, 123_456_789).unwrap()
}

fn integer(n: u64) -> toml::Value {
    toml::Value::Integer(i64::try_from(n).unwrap())
}

fn text(s: &str) -> toml::Value {
    toml::Value::String(s.to_string())
}

fn time_text(t: Timestamp) -> toml::Value {
    let t = chrono::DateTime::from_timestamp(t.seconds(), t.nanoseconds()).unwrap();
    toml::Value::String(t.to_rfc3339())
}

fn time_from(value: &toml::Value) -> Timestamp {
    let t = chrono::DateTime::parse_from_rfc3339(value.as_str().unwrap()).unwrap();
    Timestamp::new(t.timestamp(), t.timestamp_subsec_nanos()).unwrap()
}

fn status_name(status: RegionStatus) -> &'static str {
    match status {
        RegionStatus::Untried => "untried",
        RegionStatus::Done => "done",
        RegionStatus::Bad => "bad",
    }
}

fn to_toml(s: &StateFile) -> String {
    let mut meta = toml::Table::new();
    meta.insert("version".to_string(), integer(u64::from(s.meta.version)));
    meta.insert("program".to_string(), text(&s.meta.program));
    meta.insert("program_version".to_string(), text(&s.meta.program_version));
    meta.insert("created".to_string(), time_text(s.meta.created));
    meta.insert("updated".to_string(), time_text(s.meta.updated));
    let p = &s.params;
    let mut params = toml::Table::new();
    params.insert("source".to_string(), text(&p.source));
    params.insert("target".to_string(), text(&p.target));
    for (key, value) in [
        ("sector_size", p.sector_size),
        ("transfer_size", p.transfer_size),
        ("skip", p.skip),
        ("seek", p.seek),
        ("length", p.length),
    ] {
        params.insert(key.to_string(), integer(value));
    }
    params.insert(
        "skip_unchanged".to_string(),
        toml::Value::Boolean(p.skip_unchanged),
    );
    params.insert("skip_zeros".to_string(), toml::Value::Boolean(p.skip_zeros));
    let mut progress = toml::Table::new();
    for (key, value) in [
        ("bytes_total", s.progress.bytes_total),
        ("bytes_done", s.progress.bytes_done),
        ("bytes_written", s.progress.bytes_written),
        ("errors", s.progress.errors),
    ] {
        progress.insert(key.to_string(), integer(value));
    }
    let mut root = toml::Table::new();
    root.insert("meta".to_string(), toml::Value::Table(meta));
    root.insert("params".to_string(), toml::Value::Table(params));
    root.insert("progress".to_string(), toml::Value::Table(progress));
    if let Some(h) = &s.hashes {
        let mut hashes = toml::Table::new();
        hashes.insert("algorithm".to_string(), text(&h.algorithm));
        hashes.insert("chunk_size".to_string(), integer(h.chunk_size));
        hashes.insert(
            "chunks".to_string(),
            toml::Value::Array(h.chunks.iter().map(|c| text(c)).collect()),
        );
        root.insert("hashes".to_string(), toml::Value::Table(hashes));
    }
    let regions = s
        .regions
        .iter()
        .map(|r| {
            let mut region = toml::Table::new();
            region.insert("start".to_string(), integer(r.start));
            region.insert("length".to_string(), integer(r.length));
            region.insert("status".to_string(), text(status_name(r.status)));
            toml::Value::Table(region)
        })
        .collect();
    root.insert("regions".to_string(), toml::Value::Array(regions));
    toml::to_string_pretty(&root).unwrap()
}

fn from_toml(source: &str) -> StateFile {
    let root: toml::Table = toml::from_str(source).unwrap();
    let number = |table: &toml::Value, key: &str| {
        u64::try_from(table[key].as_integer().unwrap()).unwrap()
    };
    let string = |table: &toml::Value, key: &str| table[key].as_str().unwrap().to_string();
    let (meta, params, progress) = (&root["meta"], &root["params"], &root["progress"]);
    StateFile {
        meta: Meta {
            version: u32::try_from(number(meta, "version")).unwrap(),
            program: string(meta, "program"),
            program_version: string(meta, "program_version"),
            created: time_from(&meta["created"]),
            updated: time_from(&meta["updated"]),
        },
        params: RunParams {
            source: string(params, "source"),
            target: string(params, "target"),
            sector_size: number(params, "sector_size"),
            transfer_size: number(params, "transfer_size"),
            skip: number(params, "skip"),
            seek: number(params, "seek"),
            length: number(params, "length"),
            skip_unchanged: params["skip_unchanged"].as_bool().unwrap(),
            skip_zeros: params["skip_zeros"].as_bool().unwrap(),
        },
        progress: Progress {
            bytes_total: number(progress, "bytes_total"),
            bytes_done: number(progress, "bytes_done"),
            bytes_written: number(progress, "bytes_written"),
            errors: number(progress, "errors"),
        },
        hashes: root.get("hashes").map(|h| Hashes {
            algorithm: string(h, "algorithm"),
            chunk_size: number(h, "chunk_size"),
            chunks: h["chunks"]
                .as_array()
                .unwrap()
                .iter()
                .map(|c| c.as_str().unwrap().to_string())
                .collect(),
        }),
        verify: None,
        regions: root["regions"]
            .as_array()
            .unwrap()
            .iter()
            .map(|r| Region {
                start: number(r, "start"),
                length: number(r, "length"),
                status: match r["status"].as_str().unwrap() {
                    "untried" => RegionStatus::Untried,
                    "done" => RegionStatus::Done,
                    _ => RegionStatus::Bad,
                },
            })
            .collect(),
    }
}

#[test]
fn round_trips_through_toml() {
    let mut map = RegionMap::from_total(4096);
    map.mark(0, 2048, RegionStatus::Done);
    map.mark(2048, 1024, RegionStatus::Bad);
    let state = StateFile::build(&sample_params(), &map, 4096, now(), now(), 2048, None, None);

    let text = to_toml(&state);
    assert!(text.contains("[meta]"));
    assert!(text.contains("[params]"));
    assert!(text.contains("[[regions]]"));
    assert!(!text.contains("[hashes]"), "no manifest unless hashing ran");

    let parsed = from_toml(&text);
    assert_eq!(parsed.params, sample_params());
    assert_eq!(parsed.progress.bytes_done, 2048);
    assert_eq!(parsed.progress.bytes_written, 2048);
    assert_eq!(parsed.progress.errors, 1);
    assert_eq!(parsed.hashes, None);
    assert_eq!(parsed.region_map(), map);
    assert_eq!(parsed.meta.created, now());
}

#[test]
fn hashes_round_trip_through_toml() {
    let mut map = RegionMap::from_total(4096);
    map.mark(0, 4096, RegionStatus::Done);
    let hashes = Hashes {
        algorithm: "blake3".to_string(),
        chunk_size: 2048,
        chunks: vec!["aa11".to_string(), String::new()],
    };
    let state = StateFile::build(
        &sample_params(),
        &map,
        4096,
        now(),
        now(),
        4096,
        Some(hashes.clone()),
        None,
    );

    let text = to_toml(&state);
    assert!(text.contains("[hashes]"), "state was:\n{text}");

    let parsed = from_toml(&text);
    assert_eq!(parsed.hashes, Some(hashes));
}

#[test]
fn a_state_names_its_program_and_version() {
    let map = RegionMap::from_total(10);
    let mut state = StateFile::build(&sample_params(), &map, 10, now(), now(), 0, None, None);
    assert_eq!(state.meta.version, 1);
    assert_eq!(state.meta.program, "exhume");
    assert_eq!(state.meta.program_version, "0.1.0");
    assert!(!state.is_newer());
    state.meta.version = StateFile::VERSION + 1;
    assert!(state.is_newer());
}

#[test]
fn a_state_restores_its_map() {
    let mut map = RegionMap::from_total(100_000);
    map.mark(512, 700, RegionStatus::Done);
    map.mark(50_000, 512, RegionStatus::Bad);
    map.mark(60_000, 512, RegionStatus::Bad);
    assert_eq!(count_bad(&map), 2);
    let state = StateFile::build(&sample_params(), &map, 100_000, now(), now(), 700, None, None);
    assert_eq!(state.progress.errors, 2);
    assert_eq!(state.region_map(), map);
}

#[test]
fn only_a_finished_verify_asks_for_repairs() {
    let section = |cursor| VerifyState {
        cursor,
        mismatches: vec![4096, 8192],
        started: now(),
        finished: None,
        ok: None,
    };
    assert_eq!(repair_list(&None), Vec::<u64>::new());
    assert_eq!(repair_list(&Some(section(None))), vec![4096, 8192]);
    assert_eq!(repair_list(&Some(section(Some(0)))), Vec::<u64>::new());
    let kept = verify_carry(&Some(section(Some(3))), false);
    assert_eq!(kept, Some(section(Some(3))));
    assert_eq!(verify_carry(&Some(section(None)), true), None);
    assert_eq!(section(Some(1)).clone(), section(Some(1)));
}

#[test]
fn a_manifest_lists_the_hashers_chunks() {
    let mut hasher = ChunkHasher::new(4, 8, Vec::new());
    hasher.feed(0, b"abcdefgh");
    let manifest = manifest_of(&hasher);
    assert_eq!(manifest.algorithm, "blake3");
    assert_eq!(manifest.chunk_size, 4);
    assert_eq!(manifest.chunks, hasher.chunks().to_vec());
    assert_eq!(copy_texts(hasher.chunks()), hasher.chunks().to_vec());
    assert_eq!(copy_numbers(&vec![3, 1, 2]), vec![3, 1, 2]);
}
