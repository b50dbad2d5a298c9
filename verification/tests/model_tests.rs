use logreduce_model::hashing_index;
use logreduce_model::index::{make_index, ChunkIndex, IndexAlgo, Index, THRESHOLD};
use logreduce_model::model::{lookup_or_single, Model};
use logreduce_model::noop_index;
use logreduce_model::source::{Content, IndexName, Source};
use logreduce_model::{Error, Input};

fn s(x: &str) -> String {
    x.to_string()
}

fn lines(xs: &[&str]) -> Vec<String> {
    xs.iter().map(|x| x.to_string()).collect()
}

#[test]
fn input_http_is_url() {
    let i = Input::from_string(s("http://example.com/log"));
    assert_eq!(i, Input::Url(s("http://example.com/log")));
    let i = Input::from_string(s("https://example.com/log"));
    assert_eq!(i, Input::Url(s("https://example.com/log")));
}

#[test]
fn input_other_is_path() {
    let i = Input::from_string(s("/var/log/messages"));
    assert_eq!(i, Input::Path(s("/var/log/messages")));
    let i = Input::from_string(s("htt"));
    assert_eq!(i, Input::Path(s("htt")));
}

#[test]
fn relative_identity_strips_prefix() {
    let src = Source::Local(5, s("/tmp/job.log"));
    assert_eq!(src.get_relative(), "job.log");
    assert_eq!(src.as_str(), "/tmp/job.log");
    let src = Source::Remote(19, s("http://example.com/build/42/console.log"));
    assert_eq!(src.get_relative(), "build/42/console.log");
}

#[test]
fn is_valid_rejects_known_extensions() {
    assert!(!Source::Local(0, s("favicon.ico")).is_valid());
    assert!(!Source::Local(0, s("shot.png")).is_valid());
    assert!(!Source::Local(0, s("data.clf")).is_valid());
    assert!(!Source::Local(0, s("cache.sqlite")).is_valid());
    assert!(Source::Local(0, s("job.log")).is_valid());
    assert!(Source::Local(0, s("png")).is_valid());
    // the rule looks at the relative identity, not the full path
    assert!(Source::Local(9, s("dir.sqlite/job.log")).is_valid());
}

#[test]
fn index_name_masks_digits() {
    let src = Source::Local(0, s("job-123.log"));
    let name = IndexName::from_source(&src);
    assert_eq!(name.as_str(), "job-.log");
    let a = IndexName::from_source(&Source::Local(5, s("/aaa/build-7/x.log")));
    let b = IndexName::from_source(&Source::Local(5, s("/bbb/build-9/x.log")));
    assert_eq!(a, b);
}

#[test]
fn group_sources_partitions_by_name() {
    let c1 = Content::File(Source::Local(5, s("/tmp/job1.log")));
    let c2 = Content::File(Source::Local(7, s("/other/job2.log")));
    let c3 = Content::File(Source::Local(7, s("/other/setup.txt")));
    let baselines = vec![c1, c2, c3];
    let listed: Vec<Vec<Source>> = vec![vec![], vec![], vec![]];
    let groups = Content::group_sources(&baselines, &listed).unwrap();
    assert_eq!(groups.len(), 2);
    assert_eq!(groups[0].0.as_str(), "job.log");
    assert_eq!(
        groups[0].1,
        vec![
            Source::Local(5, s("/tmp/job1.log")),
            Source::Local(7, s("/other/job2.log"))
        ]
    );
    assert_eq!(groups[1].0.as_str(), "setup.txt");
    assert_eq!(groups[1].1, vec![Source::Local(7, s("/other/setup.txt"))]);
}

#[test]
fn group_sources_empty_is_error() {
    let c1 = Content::File(Source::Local(0, s("shot.png")));
    let baselines = vec![c1];
    let listed: Vec<Vec<Source>> = vec![vec![]];
    assert_eq!(
        Content::group_sources(&baselines, &listed),
        Err(Error::EmptySources)
    );
}

fn noop_entry(key: &str) -> (IndexName, Index) {
    let groups = vec![(
        IndexName(s(key)),
        vec![Source::Local(0, s(key))],
    )];
    let model = Model::train(
        0,
        vec![],
        groups,
        &vec![vec![lines(&["a"])]],
        &vec![0],
        IndexAlgo::Noop,
    );
    model.indexes.into_iter().next().unwrap()
}

#[test]
fn lookup_single_matches_any_key() {
    let hm = vec![noop_entry("one.log")];
    let r = lookup_or_single(&hm, &IndexName(s("other.log")));
    assert!(r.is_some());
}

#[test]
fn lookup_empty_or_many_without_match_is_none() {
    let hm: Vec<(IndexName, Index)> = vec![];
    assert!(lookup_or_single(&hm, &IndexName(s("x"))).is_none());
    let hm = vec![noop_entry("one.log"), noop_entry("two.log")];
    assert!(lookup_or_single(&hm, &IndexName(s("three.log"))).is_none());
}

#[test]
fn lookup_exact_match_wins() {
    let hm = vec![noop_entry("one.log"), noop_entry("two.log")];
    let r = lookup_or_single(&hm, &IndexName(s("two.log")));
    assert!(r.is_some());
}

#[test]
fn noop_search_is_all_zero() {
    let targets = lines(&["a", "b", "c"]);
    assert_eq!(noop_index::search(&targets), vec![0, 0, 0]);
    let ci = noop_index::new();
    assert_eq!(ci.search(&targets), vec![0, 0, 0]);
}

#[test]
fn tokenizers() {
    assert_eq!(hashing_index::tokenize("error 42 at 0x1f"), "error 00 at 0x0f");
    assert_eq!(noop_index::tokenize("error 42"), "error 42");
    let ci = make_index(IndexAlgo::HashingTrick);
    assert_eq!(ci.tokenize("run 7"), "run 0");
    let ci = make_index(IndexAlgo::Noop);
    assert_eq!(ci.tokenize("run 7"), "run 7");
}

#[test]
fn noop_inspect_finds_nothing() {
    let ix = Index::train(
        &vec![lines(&["INFO start"])],
        make_index(IndexAlgo::Noop),
        0,
    );
    let anomalies = ix.inspect(&lines(&["anything", "at all"]));
    assert!(anomalies.is_empty());
}

fn trained_model() -> Model {
    let baseline_src = Source::Local(5, s("/old/job.log"));
    let baseline = Content::File(baseline_src.clone());
    let groups = vec![(
        IndexName::from_source(&baseline_src),
        vec![baseline_src],
    )];
    Model::train(
        7,
        vec![baseline],
        groups,
        &vec![vec![lines(&["INFO start", "INFO stop"])]],
        &vec![3],
        IndexAlgo::HashingTrick,
    )
}

#[test]
fn end_to_end_hashing_flags_the_crash() {
    let model = trained_model();
    let target = Source::Local(5, s("/new/job.log"));
    let report = model
        .report(
            9,
            &vec![target],
            &vec![Ok(lines(&["INFO start", "ERROR unexpected crash"]))],
            &vec![1],
        )
        .unwrap();
    assert_eq!(report.created_at_ms, 9);
    assert_eq!(report.targets.len(), 1);
    let log_report = &report.targets[0];
    assert_eq!(log_report.test_time_ms, 1);
    assert_eq!(log_report.anomalies.len(), 1);
    let ctx = &log_report.anomalies[0];
    assert_eq!(ctx.anomaly.pos, 1);
    assert_eq!(ctx.anomaly.line, "ERROR unexpected crash");
    assert!(ctx.anomaly.distance > THRESHOLD);
    assert_eq!(ctx.before, vec![s("INFO start")]);
    assert!(ctx.after.is_empty());
}

#[test]
fn report_drops_clean_sources() {
    let model = trained_model();
    let target = Source::Local(5, s("/new/job.log"));
    let report = model
        .report(
            9,
            &vec![target],
            &vec![Ok(lines(&["INFO start", "INFO stop", "INFO start"]))],
            &vec![1],
        )
        .unwrap();
    assert!(report.targets.is_empty());
}

#[test]
fn report_missing_index_is_typed() {
    // two indexes, no exact match: the single-index fallback does not apply
    let groups = vec![
        (IndexName(s("a.log")), vec![Source::Local(0, s("a.log"))]),
        (IndexName(s("b.log")), vec![Source::Local(0, s("b.log"))]),
    ];
    let model = Model::train(
        0,
        vec![],
        groups,
        &vec![vec![lines(&["x"])], vec![lines(&["y"])]],
        &vec![0, 0],
        IndexAlgo::Noop,
    );
    let target = Source::Local(0, s("c.log"));
    let r = model.report(0, &vec![target], &vec![Ok(lines(&["z"]))], &vec![0]);
    assert_eq!(r, Err(Error::MissingIndex));
}

#[test]
fn report_propagates_open_failure() {
    let model = trained_model();
    let target = Source::Local(5, s("/new/job.log"));
    let r = model.report(
        0,
        &vec![target],
        &vec![Err(Error::SourceOpen(s("no such file")))],
        &vec![0],
    );
    assert_eq!(r, Err(Error::SourceOpen(s("no such file"))));
}

#[test]
fn save_load_round_trip() {
    let model = trained_model();
    let bytes = model.save();
    let loaded = Model::load(&bytes).unwrap();
    assert_eq!(loaded, model);
    // identical search behaviour on a fixed input
    let target = Source::Local(5, s("/new/job.log"));
    let opened = vec![Ok(lines(&["INFO start", "ERROR unexpected crash"]))];
    let before = model.report(9, &vec![target.clone()], &opened, &vec![1]).unwrap();
    let after = loaded.report(9, &vec![target], &opened, &vec![1]).unwrap();
    assert_eq!(before, after);
}

#[test]
fn load_rejects_garbage() {
    assert_eq!(Model::load(&vec![1, 2, 3, 4]), Err(Error::CorruptModel));
    assert_eq!(Model::load(&vec![]), Err(Error::CorruptModel));
}

#[test]
fn from_input_url_is_validated_and_normalized() {
    let r = Content::from_input(Input::Url(s("http:::not a url::")), false);
    assert_eq!(r, Err(Error::MalformedUrl));
    let c = Content::from_input(Input::Url(s("http://EXAMPLE.com/a/b.log")), false).unwrap();
    assert_eq!(
        c,
        Content::File(Source::Remote(21, s("http://example.com/a/b.log")))
    );
    let c = Content::from_input(Input::Url(s("http://example.com/logs/")), false).unwrap();
    assert_eq!(
        c,
        Content::Directory(Source::Remote(24, s("http://example.com/logs/")))
    );
}

#[test]
fn from_input_path_uses_caller_fs_knowledge() {
    let c = Content::from_input(Input::Path(s("/var/log/messages")), false).unwrap();
    assert_eq!(c, Content::File(Source::Local(9, s("/var/log/messages"))));
    let c = Content::from_input(Input::Path(s("/var/log")), true).unwrap();
    assert_eq!(c, Content::Directory(Source::Local(5, s("/var/log"))));
}

#[test]
fn discover_baselines_policy() {
    let dir = Content::Directory(Source::Local(0, s("logs")));
    assert_eq!(
        dir.discover_baselines(vec![]),
        Err(Error::BaselinesNotProvided)
    );
    let remote = Content::File(Source::Remote(0, s("http://example.com/x.log")));
    assert_eq!(
        remote.discover_baselines(vec![]),
        Err(Error::BaselinesNotProvided)
    );
    let local = Content::File(Source::Local(0, s("x.log")));
    assert_eq!(local.discover_baselines(vec![]), Err(Error::EmptyBaselines));
    let found = vec![Content::File(Source::Local(0, s("old-x.log")))];
    assert_eq!(local.discover_baselines(found.clone()), Ok(found));
}

#[test]
fn get_sources_filters_and_rejects_empty() {
    let file = Content::File(Source::Local(0, s("shot.png")));
    assert_eq!(file.get_sources(&vec![]), Err(Error::EmptySources));
    let dir = Content::Directory(Source::Local(0, s("logs")));
    let listed = vec![
        Source::Local(5, s("logs/job.log")),
        Source::Local(5, s("logs/favicon.ico")),
    ];
    assert_eq!(
        dir.get_sources(&listed),
        Ok(vec![Source::Local(5, s("logs/job.log"))])
    );
    let iter = dir.get_sources_iter(listed.clone());
    assert_eq!(iter, listed);
}
