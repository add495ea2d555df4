use vstd::prelude::*;
use vstd::string::StringExecFns;

verus! {

/// The one line the benchmark writes on each connection: the method and the
/// path, then the protocol tag and an empty header block.
pub fn request_line(method: &str, path: &str) -> (r: String)
    ensures
        r@ == method@ + " "@ + path@ + " HTTP/1.1\r\n\r\n"@,
{
    let mut line = String::new();
    line.append(method);
    line.append(" ");
    line.append(path);
    line.append(" HTTP/1.1\r\n\r\n");
    proof {
        assert(line@ =~= method@ + " "@ + path@ + " HTTP/1.1\r\n\r\n"@);
    }
    line
}

} // verus!
