use rusting::aggregate::aggregrate_intermediate;
use rusting::communication::{client_count, node_line_index, peer_address_text, peer_ports, port_list_files};

fn s(v: &[&str]) -> Vec<String> {
    v.iter().map(|x| x.to_string()).collect()
}

#[test]
fn positions_in_the_node_file() {
    let lines = s(&["1-10.0.0.1 3l", "2-10.0.0.2 3r", "13-10.0.0.3 4l"]);
    assert_eq!(node_line_index(&lines, &"10.0.0.2".to_string(), &"".to_string(), true), 1);
    assert_eq!(node_line_index(&lines, &"10.0.0.9".to_string(), &"".to_string(), true), 3);
    assert_eq!(node_line_index(&lines, &"".to_string(), &"3".to_string(), false), 2);
    assert_eq!(node_line_index(&lines, &"".to_string(), &"1".to_string(), false), 0);
    assert_eq!(client_count(&lines, &"10.0.0.3".to_string()), 3);
}

#[test]
fn ports_and_addresses() {
    assert_eq!(peer_ports(7221, 7421, 3), (12224, 12424));
    assert_eq!(peer_address_text(&"10.0.0.1".to_string(), 12224), "10.0.0.1:12224");
    let dev = s(&["p", "nok", "4", "8", "t", "dev", "ip"]);
    assert_eq!(port_list_files(&dev), ("./server_port_list4.txt".to_string(), "./client_port_list4.txt".to_string()));
    let prod = s(&["p", "nok", "4", "8", "t", "prod", "ip"]);
    assert_eq!(port_list_files(&prod).0, "./server_port_list{}.txt");
    aggregrate_intermediate();
}
