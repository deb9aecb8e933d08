use midi_engine::matcher::{interpret_note, successful_pattern, PatternMatcher};
use midi_engine::trie::{Node, Pattern, PatternLibrary, Token};

fn lib_of(patterns: Vec<(Vec<Token>, u32)>) -> PatternLibrary {
    let patterns: Vec<Pattern> = patterns
        .into_iter()
        .map(|(tokens, action)| Pattern { tokens, action })
        .collect();
    PatternLibrary::from_patterns(&patterns)
}

#[test]
fn node_rules_and_value() {
    let mut n = Node::new();
    assert!(n.empty_rulemap());
    assert_eq!(n.get_value(), None);
    assert_eq!(n.get_rule(Token::Pitch(60)), None);
    n.add_rule(Token::Pitch(60), 1);
    n.add_rule(Token::Wildcard, 2);
    assert!(!n.empty_rulemap());
    assert_eq!(n.get_rule(Token::Pitch(60)), Some(1));
    assert_eq!(n.get_rule(Token::Wildcard), Some(2));
    assert_eq!(n.get_rule(Token::Pitch(61)), None);
    // a later binding for the same token overrides the earlier one
    n.add_rule(Token::Pitch(60), 3);
    assert_eq!(n.get_rule(Token::Pitch(60)), Some(3));
}

#[test]
fn single_pattern_completes_on_last_token() {
    let lib = lib_of(vec![(vec![Token::Pitch(60), Token::Pitch(61), Token::Pitch(62)], 7)]);
    let mut m = PatternMatcher::new();
    assert_eq!(interpret_note(&lib, &mut m, 60), Vec::<u32>::new());
    assert_eq!(interpret_note(&lib, &mut m, 61), Vec::<u32>::new());
    assert_eq!(interpret_note(&lib, &mut m, 62), vec![7]);
}

#[test]
fn wildcard_position_accepts_any_pitch() {
    let lib = lib_of(vec![(vec![Token::Pitch(60), Token::Wildcard, Token::Pitch(62)], 7)]);
    let mut m = PatternMatcher::new();
    assert_eq!(interpret_note(&lib, &mut m, 60), Vec::<u32>::new());
    assert_eq!(interpret_note(&lib, &mut m, 99), Vec::<u32>::new());
    assert_eq!(interpret_note(&lib, &mut m, 62), vec![7]);
}

#[test]
fn pattern_restarts_from_root_on_every_note() {
    let lib = lib_of(vec![(vec![Token::Pitch(60)], 5)]);
    let mut m = PatternMatcher::new();
    assert_eq!(interpret_note(&lib, &mut m, 60), vec![5]);
    // a fresh attempt starts on every note, not only from an empty live set
    assert_eq!(interpret_note(&lib, &mut m, 60), vec![5]);
}

#[test]
fn shared_prefix_branches() {
    // two patterns sharing the prefix 60 stay live together after it
    let lib = lib_of(vec![
        (vec![Token::Pitch(60), Token::Pitch(61)], 1),
        (vec![Token::Pitch(60), Token::Pitch(62)], 2),
    ]);

    let mut m = PatternMatcher::new();
    assert_eq!(interpret_note(&lib, &mut m, 60), Vec::<u32>::new());
    assert_eq!(m.live.len(), 1); // the shared prefix node carries both patterns
    assert_eq!(interpret_note(&lib, &mut m, 61), vec![1]);

    let mut m = PatternMatcher::new();
    assert_eq!(interpret_note(&lib, &mut m, 60), Vec::<u32>::new());
    assert_eq!(interpret_note(&lib, &mut m, 62), vec![2]);

    // a pitch neither branch expects drops the attempt entirely
    let mut m = PatternMatcher::new();
    assert_eq!(interpret_note(&lib, &mut m, 60), Vec::<u32>::new());
    assert_eq!(interpret_note(&lib, &mut m, 63), Vec::<u32>::new());
    assert_eq!(m.live.len(), 0);
}

#[test]
fn exact_match_preferred_over_wildcard() {
    let lib = lib_of(vec![
        (vec![Token::Pitch(60), Token::Wildcard], 10),
        (vec![Token::Pitch(60), Token::Pitch(64)], 20),
    ]);

    // 60,64 takes the concrete edge: action 20 fires and action 10 does not
    let mut m = PatternMatcher::new();
    assert_eq!(interpret_note(&lib, &mut m, 60), Vec::<u32>::new());
    assert_eq!(interpret_note(&lib, &mut m, 64), vec![20]);

    // 60,65 has no concrete edge, so the wildcard branch fires
    let mut m = PatternMatcher::new();
    assert_eq!(interpret_note(&lib, &mut m, 60), Vec::<u32>::new());
    assert_eq!(interpret_note(&lib, &mut m, 65), vec![10]);
}

#[test]
fn shared_prefix_live_set_evolution() {
    // patterns [60,61,62 -> 1] and [60,60,61 -> 2], note stream 60,60,61,62
    let lib = lib_of(vec![
        (vec![Token::Pitch(60), Token::Pitch(61), Token::Pitch(62)], 1),
        (vec![Token::Pitch(60), Token::Pitch(60), Token::Pitch(61)], 2),
    ]);
    let mut m = PatternMatcher::new();

    // note 1: only the fresh root attempt survives
    assert_eq!(interpret_note(&lib, &mut m, 60), Vec::<u32>::new());
    assert_eq!(m.live.len(), 1);

    // note 2: the prefix node advances on 60 and a fresh attempt joins
    assert_eq!(interpret_note(&lib, &mut m, 60), Vec::<u32>::new());
    assert_eq!(m.live.len(), 2);

    // note 3: the older branch completes pattern 2; the fresh one moves to 60,61
    assert_eq!(interpret_note(&lib, &mut m, 61), vec![2]);
    assert_eq!(m.live.len(), 2);

    // note 4: the 60,61 branch completes pattern 1
    assert_eq!(interpret_note(&lib, &mut m, 62), vec![1]);
    assert_eq!(m.live.len(), 1);
}

#[test]
fn later_duplicate_pattern_overrides_earlier() {
    let lib = lib_of(vec![
        (vec![Token::Pitch(60), Token::Pitch(61)], 1),
        (vec![Token::Pitch(60), Token::Pitch(61)], 2),
    ]);
    let mut m = PatternMatcher::new();
    assert_eq!(interpret_note(&lib, &mut m, 60), Vec::<u32>::new());
    assert_eq!(interpret_note(&lib, &mut m, 61), vec![2]);
}

#[test]
fn empty_library_never_fires() {
    let lib = lib_of(vec![]);
    let mut m = PatternMatcher::new();
    for pitch in [60u8, 61, 0, 127] {
        assert_eq!(interpret_note(&lib, &mut m, pitch), Vec::<u32>::new());
        assert_eq!(m.live.len(), 0);
    }
}

#[test]
fn successful_pattern_reads_completion_marker() {
    let lib = lib_of(vec![(vec![Token::Pitch(60)], 5)]);
    assert_eq!(lib.nodes.len(), 2);
    assert_eq!(successful_pattern(&lib, 0), None);
    assert_eq!(successful_pattern(&lib, 1), Some(5));
}

#[test]
fn prefix_pattern_fires_along_the_way() {
    // a configured pattern that is a prefix of another fires at its own end
    let lib = lib_of(vec![
        (vec![Token::Pitch(60)], 1),
        (vec![Token::Pitch(60), Token::Pitch(61)], 2),
    ]);
    let mut m = PatternMatcher::new();
    assert_eq!(interpret_note(&lib, &mut m, 60), vec![1]);
    assert_eq!(interpret_note(&lib, &mut m, 61), vec![2]);
}

#[test]
fn two_patterns_can_complete_on_one_note() {
    let lib = lib_of(vec![
        (vec![Token::Pitch(60), Token::Pitch(61)], 1),
        (vec![Token::Pitch(61)], 2),
    ]);
    let mut m = PatternMatcher::new();
    assert_eq!(interpret_note(&lib, &mut m, 60), Vec::<u32>::new());
    // the live branch completes pattern 1 and the fresh attempt pattern 2
    assert_eq!(interpret_note(&lib, &mut m, 61), vec![1, 2]);
}
