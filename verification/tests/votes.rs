use bot_scythe::votes::{getvotes, vote, Data, VoteTally};

#[test]
fn voting_counts_up() {
    let mut t = VoteTally::new();
    assert_eq!(vote(&mut t, "pumpkin".to_string()), "Successfully voted for pumpkin. pumpkin now has 1 votes!");
    assert_eq!(vote(&mut t, "pumpkin".to_string()), "Successfully voted for pumpkin. pumpkin now has 2 votes!");
    assert_eq!(t.votes_for(&"pumpkin".to_string()), 2);
    assert_eq!(t.votes_for(&"apple".to_string()), 0);
}

#[test]
fn votes_for_one_choice() {
    let mut t = VoteTally::new();
    vote(&mut t, "pumpkin".to_string());
    vote(&mut t, "pumpkin".to_string());
    assert_eq!(getvotes(&t, Some("pumpkin".to_string())), "2 people have voted for pumpkin");
    assert_eq!(getvotes(&t, Some("x".to_string())), "Nobody has voted for x yet");
}

#[test]
fn votes_for_every_choice() {
    let mut t = VoteTally::new();
    assert_eq!(getvotes(&t, None), "Nobody has voted for anything yet :(");
    vote(&mut t, "pumpkin".to_string());
    vote(&mut t, "apple".to_string());
    vote(&mut t, "pumpkin".to_string());
    assert_eq!(getvotes(&t, None), "pumpkin: 2 votesapple: 1 votes");
}

#[test]
fn data_starts_empty() {
    let d = Data::new();
    assert_eq!(d.music, "");
    assert!(d.votes.entries().is_empty());
}
