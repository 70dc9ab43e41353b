use yo_compat::corpus::{Register, Step};
use yo_compat::report::{classify, group, join_args, parse_args, worst_first, Tally};
use yo_compat::resp::Reply;
use yo_compat::launch::{start_step, StartStep};

fn err(s: &str) -> Result<Reply, String> {
    Ok(Reply::Error(s.as_bytes().to_vec()))
}

fn ok(s: &str) -> Result<Reply, String> {
    Ok(Reply::Simple(s.as_bytes().to_vec()))
}

#[test]
fn classify_sorts_disagreements() {
    assert_eq!(classify(&err("ERR a"), &err("ERR b")), "same error, different wording");
    assert_eq!(
        classify(&err("ERR a"), &err("WRONGTYPE a")),
        "both refused it, with different errors"
    );
    assert_eq!(classify(&ok("OK"), &err("ERR a")), "we accepted what redis refuses");
    assert_eq!(classify(&err("ERR a"), &ok("OK")), "we refused what redis accepts");
    assert_eq!(classify(&ok("OK"), &ok("QUEUED")), "different reply");
    assert_eq!(classify(&Err("timed out".to_string()), &ok("OK")), "one of them did not answer");
    assert_eq!(classify(&ok("OK"), &Err("closed".to_string())), "one of them did not answer");
}

#[test]
fn the_report_order_is_worst_first_and_covers_every_sort() {
    let order = worst_first();
    assert_eq!(order[0], "we accepted what redis refuses");
    assert_eq!(order[5], "same error, different wording");
    assert_eq!(order.len(), 6);
}

fn step(line: usize, args: &[&str]) -> Step {
    Step { line, args: args.iter().map(|a| a.to_string()).collect() }
}

#[test]
fn the_tally_counts_matches_excuses_and_divergences() {
    let register = Register::parse(
        "[[divergence]]\ncorpus = \"s.txt\"\ncommand = \"object\"\nreason = \"one encoding\"\n",
    )
    .ok()
    .unwrap();
    let mut t = Tally::new();
    t.record(&register, "s.txt", &step(1, &["SET", "k", "v"]), ok("OK"), ok("OK"));
    assert_eq!((t.compared, t.registered, t.diverged.len()), (1, 0, 0));
    t.record(&register, "s.txt", &step(2, &["OBJECT", "ENCODING", "k"]), ok("raw"), ok("embstr"));
    assert_eq!((t.compared, t.registered, t.diverged.len()), (2, 1, 0));
    t.record(&register, "s.txt", &step(3, &["GETEX", "k"]), ok("OK"), err("ERR syntax"));
    assert_eq!((t.compared, t.registered, t.diverged.len()), (3, 1, 1));
    t.record(&register, "s.txt", &step(4, &["GET", "k"]), Err("closed".to_string()), ok("v"));
    assert_eq!((t.compared, t.registered, t.diverged.len()), (4, 1, 2));
    assert!(!t.clean());
    let d = &t.diverged[0];
    assert_eq!(d.file, "s.txt");
    assert_eq!(d.line, 3);
    assert_eq!(d.command, "GETEX k");
    assert_eq!(d.kind, "we accepted what redis refuses");
    assert_eq!(d.ours, "+\"OK\"");
    assert_eq!(d.theirs, "-\"ERR syntax\"");
    assert_eq!(t.diverged[1].ours, "<closed>");
    assert_eq!(group(&t.diverged, "we accepted what redis refuses"), vec![0]);
    assert_eq!(group(&t.diverged, "one of them did not answer"), vec![1]);
    assert_eq!(group(&t.diverged, "different reply"), Vec::<usize>::new());
    assert!(Tally::new().clean());
}

#[test]
fn arguments_join_with_single_spaces() {
    assert_eq!(join_args(&vec!["SET".to_string(), "k".to_string(), "".to_string()]), "SET k ");
    assert_eq!(join_args(&vec![]), "");
}

fn args(a: &[&str]) -> Vec<String> {
    a.iter().map(|s| s.to_string()).collect()
}

#[test]
fn the_command_line_is_read_in_order() {
    let o = parse_args(&args(&[])).unwrap().unwrap();
    assert_eq!(o.yodb, "../yo/target/release/yodb");
    assert_eq!(o.redis, "redis-server");
    assert_eq!(o.dir, "corpus");
    assert!(!o.resp3 && !o.quiet && o.files.is_empty());
    let o = parse_args(&args(&["--resp3", "a.txt", "--redis", "/r", "--quiet", "b.txt", "--corpus", "c"]))
        .unwrap()
        .unwrap();
    assert!(o.resp3 && o.quiet);
    assert_eq!(o.redis, "/r");
    assert_eq!(o.dir, "c");
    assert_eq!(o.files, vec!["a.txt", "b.txt"]);
    assert!(parse_args(&args(&["x", "--help", "--bogus"])).unwrap().is_none());
    assert!(parse_args(&args(&["-h"])).unwrap().is_none());
    assert_eq!(parse_args(&args(&["--yodb"])).err().unwrap(), "--yodb needs a value");
    assert_eq!(parse_args(&args(&["--bogus", "-h"])).err().unwrap(), "no such option: --bogus");
    assert_eq!(parse_args(&args(&["-"])).err().unwrap(), "no such option: -");
    assert_eq!(parse_args(&args(&["--yodb", "-y"])).unwrap().unwrap().yodb, "-y");
}

#[test]
fn a_starting_server_is_probed_until_it_answers_or_time_is_up() {
    assert!(matches!(start_step(0, None), StartStep::Probe));
    assert!(matches!(start_step(14999, None), StartStep::Probe));
    assert!(matches!(start_step(15000, None), StartStep::GiveUp));
    assert!(matches!(start_step(3, Some(true)), StartStep::Ready));
    assert!(matches!(start_step(3, Some(false)), StartStep::Wait(25)));
}

#[test]
fn answers_that_differ_only_in_spelling_are_not_taken_for_a_match() {
    let register = Register::parse("").ok().unwrap();
    let mut t = Tally::new();
    t.record(
        &register,
        "n.txt",
        &step(1, &["GET", "k"]),
        Ok(Reply::Bulk(b"-1".to_vec())),
        Ok(Reply::NullBulk),
    );
    assert_eq!((t.compared, t.diverged.len()), (1, 1));
    assert_eq!(t.diverged[0].ours, "$\"-1\"");
    assert_eq!(t.diverged[0].theirs, "$-1");
    t.record(&register, "n.txt", &step(2, &["GET", "k"]), Ok(Reply::NullBulk), Ok(Reply::NullBulk));
    assert_eq!((t.compared, t.diverged.len()), (2, 1));
}
