use redgex::world::World;

#[test]
fn matchs1() {
    assert_eq!(
        vec![
            vec!["A"],
            vec!["B"],
            vec!["C"],
            vec!["AB"],
            vec!["BC"],
            vec!["ABC"]
        ],
        World::all_matchs("ABC", "[a-zA-Z]+")
    );
    assert_eq!(
        vec![
            vec![""],
            vec!["A"],
            vec!["B"],
            vec!["C"],
            vec!["AB"],
            vec!["BC"],
            vec!["ABC"]
        ],
        World::all_matchs("ABC", "[a-zA-Z]*")
    );
    assert_eq!(
        vec![vec![""], vec!["A"], vec!["AB"], vec!["ABC"]],
        World::all_matchs("ABC", "^[a-zA-Z]*")
    );
    assert_eq!(
        vec![vec!["C"], vec!["BC"], vec!["ABC"]],
        World::all_matchs("ABC", "[a-zA-Z]*$")
    );
    assert_eq!(vec![vec!["ABC"]], World::all_matchs("ABC", "^[a-zA-Z]*$"));
}

#[test]
fn matchs2() {
    assert_eq!(
        vec![vec!["abbabacabbaba", "abbaba", "a"]],
        World::all_matchs("abbabacabbaba", "^((a|b)*)c\\1$")
    );
}

#[test]
fn matchs3() {
    let pattern = "^([\\w;]{,5})\\D\\s(\\$|3|8|\\1)$";

    assert_eq!(
        vec![vec!["a7;r,\t$", "a7;r", "$"]],
        World::all_matchs("a7;r,\t$", pattern)
    );

    assert_eq!(
        vec![vec!["a7;r,\ta7;r", "a7;r", "a7;r"]],
        World::all_matchs("a7;r,\ta7;r", pattern)
    );
}

#[test]
fn match4() {
    assert!(
        World::all_matchs(
            "Jan 22 09:15:05 127.0.0.1 [S=207470958] [SID=90ae9b:28:6748965]  (N 13929029)  (#3125)gwSession[Allocated]. Handle:0000005576E58A90; Global session ID: 5ad3083ec1e86aee [Time:20-01@09:15:04.832]",
            "([A-z]{3} [\\d]{2} [\\d]{1,2}:[\\d]{1,2}:[\\d]{1,2}) ([\\d]{1,3}\\.[\\d]{1,3}\\.[\\d]{1,3}\\.[\\d]{1,3}) (\\[S\\=[\\d]{9}\\]) (\\[[A-z]ID=.{1,18}\\])\\s{1,3}(\\(N\\s[\\d]{5,20}\\))?(\\s+(.*))\\s{1,3}(\\[Time:.*\\])?"
        ).iter().any(|v| v[0] == "Jan 22 09:15:05 127.0.0.1 [S=207470958] [SID=90ae9b:28:6748965]  (N 13929029)  (#3125)gwSession[Allocated]. Handle:0000005576E58A90; Global session ID: 5ad3083ec1e86aee [Time:20-01@09:15:04.832]")
    );
}
