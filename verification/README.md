# rinha_rust_api

Fraud scoring for card transactions, with the rules of the service in a verified library.

`src/` is the library. Verus checks its functions against their contracts; beyond what
its own library says of std, it takes on trust what `std::str::from_utf8` returns.

- `http`, `response`: where a request ends, what it asks for, what is answered, and what comes
  next on a connection. `run` says what a whole connection answers.
- `json`, `iso`, `parser`, `resolve`: reading a transaction out of a body, leniently, and
  settling its defaults. `locality`, `order` and `grammar` say that the members of a well-formed
  body may come in any order.
- `vectorize`: the features of a transaction and the limits that they are divided by.
- `mapped`, `ivf_index`: the index files and the checks on them.
- `coarse`, `ranking`, `search`, `exactness`, `voters`: the search for the nearest reference
  vectors, what it is sure to find, and who votes.
- `bytes`, `decimal`, `ieee`, `types`: what the others share.

Numbers with a fraction are bit patterns in the library, which compares them and never computes
with them. `app/` is the service around it: sockets, files, configuration, and floating-point
arithmetic.

`tests/` runs the library on concrete inputs.
