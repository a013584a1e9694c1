use callgraph::demo::{add_numbers, calculate_sum, helper_function, process_data,
    public_api_function, verified_add};

#[test]
fn verified_add_adds() {
    assert_eq!(verified_add(10, 20), 30);
    assert_eq!(verified_add(0, 0), 0);
    assert_eq!(verified_add(u32::MAX - 1, 1), u32::MAX);
}

#[test]
fn helper_function_doubles() {
    assert_eq!(helper_function(5), 10);
    assert_eq!(helper_function(-3), -6);
}

#[test]
fn add_numbers_adds() {
    assert_eq!(add_numbers(10, 3), 13);
    assert_eq!(add_numbers(-4, 4), 0);
}

#[test]
fn calculate_sum_doubles_then_adds() {
    assert_eq!(calculate_sum(5, 3), 13);
    assert_eq!(calculate_sum(0, -7), -7);
}

#[test]
fn process_data_doubles_each_element() {
    assert_eq!(process_data(vec![1, 2, 3]), vec![2, 4, 6]);
    assert_eq!(process_data(vec![]), vec![]);
    assert_eq!(process_data(vec![-5]), vec![-10]);
}

#[test]
fn public_api_function_processes_the_sample_data() {
    assert_eq!(public_api_function(), vec![2, 4, 6]);
}
