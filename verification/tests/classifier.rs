//! Tokens, training sets, the usage-weighted sample and the best guesses.
use neuralfs::classifier::{
    reservoir_draws, reservoir_seed, training_sample, weighted_reservoir, xorshift64, Classifier,
    MAX_SAMPLES,
};
use neuralfs::rank::{rank, score_key};
use neuralfs::store::FileEntry;

const LAMBDA: f64 = 0.004;
const BASELINE: f64 = 0.1;

fn entry(path: &str, freq: u64, last_open: i64) -> FileEntry {
    FileEntry {
        path: path.to_string(),
        file_name: String::new(),
        extension: String::new(),
        parent: "p".to_string(),
        size: 0,
        modified: 0,
        depth: 0,
        freq,
        last_open,
    }
}

fn in_dir(path: &str, parent: &str) -> FileEntry {
    let mut e = entry(path, 0, 0);
    e.parent = parent.to_string();
    e
}

fn weight(e: &FileEntry, now: i64) -> f64 {
    let recency = if e.last_open > 0 {
        let age_hours = ((now - e.last_open).max(0) as f64) / 3600.0;
        (-LAMBDA * age_hours).exp()
    } else {
        BASELINE
    };
    (e.freq as f64 + 1.0) * recency.max(1e-9)
}

fn keys(items: &[FileEntry], now: i64, seed: u64) -> Vec<u64> {
    let draws = reservoir_draws(seed, items.len());
    items
        .iter()
        .zip(draws)
        .map(|(e, d)| {
            let u = (d as f64) / (u64::MAX as f64);
            let u = u.clamp(f64::MIN_POSITIVE, 1.0 - f64::EPSILON);
            u.powf(1.0 / weight(e, now)).to_bits()
        })
        .collect()
}

#[test]
fn reservoir_is_bounded_and_keeps_everything_when_small() {
    let now = 1_000_000;
    let items: Vec<FileEntry> = (0..10).map(|i| entry(&format!("f{i}"), 1, now)).collect();
    // k larger than n: keep all, no duplicates.
    let got = weighted_reservoir(&keys(&items, now, 42), 50);
    assert_eq!(got.len(), 10);
    // k smaller than n: capped exactly at k.
    let got = weighted_reservoir(&keys(&items, now, 42), 4);
    assert_eq!(got.len(), 4);
}

#[test]
fn reservoir_favours_recent_and_frequent() {
    // One hot file (high freq, opened now) vs many cold files (never opened).
    // Across many independent draws the hot file should be picked far more
    // often than any individual cold file — the property a positional stride
    // does not give.
    let now = 1_000_000;
    let mut items = vec![entry("hot", 1000, now)];
    for i in 0..200 {
        items.push(entry(&format!("cold{i}"), 0, 0));
    }

    let trials = 400;
    let mut hot_hits = 0;
    for s in 0..trials {
        let got = weighted_reservoir(&keys(&items, now, s as u64 + 1), 10);
        if got.iter().any(|&i| items[i].path == "hot") {
            hot_hits += 1;
        }
    }
    // The hot file occupies one of 201 slots but should land in the size-10
    // sample the large majority of the time; a uniform stride would give
    // only ~10/201 ≈ 5%.
    assert!(
        hot_hits as f64 / trials as f64 > 0.5,
        "hot file selected in only {hot_hits}/{trials} draws"
    );
}

#[test]
fn the_sample_holds_the_largest_keys() {
    let keys: Vec<u64> = [0.5f64, 0.9, 0.1, 0.7].iter().map(|k| k.to_bits()).collect();
    assert_eq!(weighted_reservoir(&keys, 2), vec![1, 3]);
    assert_eq!(weighted_reservoir(&keys, 4), vec![1, 3, 0, 2]);
    assert_eq!(weighted_reservoir(&keys, 0), Vec::<usize>::new());
}

#[test]
fn training_is_down_sampled_to_the_budget() {
    let all: Vec<usize> = (0..MAX_SAMPLES).map(|i| 3 * i).collect();
    let keys: Vec<u64> = vec![0; all.len()];
    assert_eq!(training_sample(all.clone(), &keys), all);
    let more: Vec<usize> = (0..MAX_SAMPLES + 2).map(|i| 3 * i).collect();
    let keys: Vec<u64> = (0..more.len()).map(|i| (i as f64).to_bits()).collect();
    let got = training_sample(more, &keys);
    assert_eq!(got.len(), MAX_SAMPLES);
    // The two files with the smallest keys are left out.
    assert_eq!(got[0], 3 * (MAX_SAMPLES + 1));
    assert_eq!(got[MAX_SAMPLES - 1], 3 * 2);
}

#[test]
fn different_states_stay_different() {
    let mut a: u64 = 1;
    let mut b: u64 = 2;
    for _ in 0..1000 {
        assert_ne!(xorshift64(&mut a), xorshift64(&mut b));
        assert!(a != 0 && b != 0);
    }
}

#[test]
fn the_generator_steps_as_xorshift64() {
    let mut state = 1u64;
    assert_eq!(xorshift64(&mut state), 1_082_269_761);
    assert_eq!(state, 1_082_269_761);
    // A seed of 0 would be stuck; its lowest bit is set.
    assert_eq!(reservoir_draws(0, 1), vec![1_082_269_761]);
    assert!(reservoir_draws(7, 1000).iter().all(|&d| d != 0));
}

#[test]
fn the_seed_mixes_time_and_size() {
    assert_eq!(reservoir_seed(0, 1), 0x9E37_79B9_7F4A_7C15);
    assert_eq!(reservoir_seed(5, 0), 5);
    assert_eq!(reservoir_seed(-1, 0), u64::MAX);
}

#[test]
fn paths_and_queries_are_cut_into_words() {
    let want: Vec<String> = ["home", "my", "report", "final", "pdf"]
        .iter()
        .map(|s| s.to_string())
        .collect();
    assert_eq!(Classifier::tokenize("/home\\my-Report_FINAL v.pdf"), want);
    assert_eq!(Classifier::tokenize("a b c"), Vec::<String>::new());
    // A letter of two bytes is long enough.
    assert_eq!(Classifier::tokenize("É"), vec!["é".to_string()]);
}

#[test]
fn the_most_common_directories_become_classes() {
    let entries = vec![
        in_dir("/a/1", "/a"),
        in_dir("/b/1", "/b"),
        in_dir("/b/2", "/b"),
        in_dir("/c/1", "/c"),
        in_dir("/c/2", "/c"),
        in_dir("/c/3", "/c"),
    ];
    assert_eq!(
        Classifier::classes_for(&entries),
        vec![
            ("/c".to_string(), 3),
            ("/b".to_string(), 2),
            ("/a".to_string(), 1)
        ]
    );
    let classes = vec!["/c".to_string(), "/a".to_string()];
    assert_eq!(Classifier::candidates(&entries, &classes), vec![0, 3, 4, 5]);
}

#[test]
fn at_most_forty_directories_become_classes() {
    let entries: Vec<FileEntry> = (0..50)
        .map(|i| in_dir(&format!("/d{i}/f"), &format!("/d{i}")))
        .collect();
    assert_eq!(Classifier::classes_for(&entries).len(), 40);
}

fn trained() -> (Vec<FileEntry>, neuralfs::classifier::Training) {
    let entries = vec![
        in_dir("/music/jazz.mp3", "/music"),
        in_dir("/music/rock.mp3", "/music"),
        in_dir("/work/plan.doc", "/work"),
    ];
    let classes: Vec<String> = Classifier::classes_for(&entries)
        .into_iter()
        .map(|c| c.0)
        .collect();
    let picked = Classifier::candidates(&entries, &classes);
    let t = Classifier::train(&entries, classes, &picked, 0).unwrap();
    (entries, t)
}

#[test]
fn training_counts_the_shared_words() {
    let (_, t) = trained();
    // Only the words of two documents or more are kept.
    let mut terms = t.classifier.terms().clone();
    terms.sort();
    assert_eq!(terms, vec!["mp3".to_string(), "music".to_string()]);
    assert_eq!(t.doc_freqs, vec![2, 2]);
    assert_eq!(t.rows.len(), 3);
    assert_eq!(t.rows[0].counts, vec![1, 1]);
    assert_eq!(t.rows[0].len, 3);
    assert_eq!(t.rows[2].counts, vec![0, 0]);
    assert_eq!(t.classifier.classes()[t.rows[2].class], "/work");
    assert!(t.classifier.is_trained());
    assert_eq!(t.classifier.version(), 1);
    assert_eq!(t.classifier.online_updates(), 0);
    assert_eq!(t.classifier.num_classes(), 2);
    assert_eq!(t.classifier.vocab_size(), 2);
}

#[test]
fn a_plan_leads_to_a_training_run() {
    let (entries, by_hand) = trained();
    let plan = Classifier::plan(&entries);
    assert_eq!(plan.classes, vec!["/music".to_string(), "/work".to_string()]);
    assert_eq!(plan.training, vec![0, 1, 2]);
    let t = Classifier::train_planned(&entries, plan, &vec![3, 1, 2], 41).unwrap();
    assert_eq!(t.classifier.terms(), by_hand.classifier.terms());
    assert_eq!(t.rows.len(), 3);
    // The version goes on from the last one.
    assert_eq!(t.classifier.version(), 42);
}

#[test]
fn nothing_is_trained_without_two_classes_or_shared_words() {
    let one = vec![in_dir("/a/x.txt", "/a"), in_dir("/a/y.txt", "/a")];
    assert!(Classifier::train(&one, vec!["/a".into()], &vec![0, 1], 0).is_none());
    let apart = vec![in_dir("/aa/xx", "/aa"), in_dir("/bb/yy", "/bb")];
    let classes = vec!["/aa".to_string(), "/bb".to_string()];
    assert!(Classifier::train(&apart, classes, &vec![0, 1], 0).is_none());
    let none: Vec<FileEntry> = vec![];
    assert!(Classifier::train(&none, vec![], &vec![], 0).is_none());
    assert!(!Classifier::untrained().is_trained());
}

#[test]
fn a_query_is_counted_against_the_vocabulary() {
    let (_, t) = trained();
    let f = t.classifier.features("my Music mp3 music").unwrap();
    assert_eq!(f.len, 4);
    let music = t.classifier.terms().iter().position(|w| w == "music").unwrap();
    assert_eq!(f.counts[music], 2);
    assert_eq!(f.counts[1 - music], 1);
    assert!(t.classifier.features("unknown words").is_none());
    assert!(t.classifier.features("").is_none());
    assert!(Classifier::untrained().features("music").is_none());
}

#[test]
fn an_update_needs_a_known_directory_and_word() {
    let (_, mut t) = trained();
    let (class, f) = t.classifier.online_target("music", "/work").unwrap();
    assert_eq!(t.classifier.classes()[class], "/work");
    assert_eq!(f.len, 1);
    assert!(t.classifier.online_target("music", "/nowhere").is_none());
    assert!(t.classifier.online_target("zzz", "/work").is_none());
    t.classifier.note_update();
    assert_eq!(t.classifier.version(), 2);
    assert_eq!(t.classifier.online_updates(), 1);
}

#[test]
fn the_three_most_likely_directories_are_guessed() {
    let classes: Vec<String> = ["/a", "/b", "/c", "/d"].iter().map(|s| s.to_string()).collect();
    let c = Classifier::restore(vec!["word".into()], classes, 0, 1).unwrap();
    let probs: Vec<u64> = [0.1f64, 0.4, 0.2, 0.3].iter().map(|p| p.to_bits()).collect();
    let top = c.top3(&probs);
    let dirs: Vec<&str> = top.iter().map(|t| t.0.as_str()).collect();
    assert_eq!(dirs, vec!["/b", "/d", "/c"]);
    assert_eq!(top[0].1, 0.4f64.to_bits());
}

#[test]
fn a_model_with_a_repeated_word_is_not_restored() {
    let twice = vec!["word".to_string(), "word".to_string()];
    assert!(Classifier::restore(twice, vec!["/a".into()], 0, 1).is_none());
}

#[test]
fn scores_rank_as_their_values_do() {
    let values = [1.5f64, -2.0, 0.0, 3.25, -0.5, f64::INFINITY];
    let keys: Vec<i64> = values.iter().map(|v| score_key(v.to_bits())).collect();
    assert_eq!(rank(&keys), vec![5, 3, 0, 2, 4, 1]);
    // The two zeros are equal, and equal scores keep their order.
    assert_eq!(score_key(0.0f64.to_bits()), score_key((-0.0f64).to_bits()));
    let same: Vec<i64> = vec![7, 9, 7, 9];
    assert_eq!(rank(&same), vec![1, 3, 0, 2]);
}
